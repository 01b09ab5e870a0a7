//! Machines, as opposed to matter.
//!
//! Entities are a separate layer from the particle grid: a cell holds sand or water,
//! never a machine. They sit on the tile grid rather than on cells, so hit-testing one
//! is a tile comparison and its sprite fills a tile exactly.
//!
//! There is one entity type here, not one per machine. A belt and a press are rows in
//! the data file and one arm of `tick` each. Everything descriptive lives in data; only
//! behaviour needs code.

use vstd::prelude::*;
use vstd::string::StringSliceAdditionalSpecFns;
use vstd::utf8::encode_utf8;
use crate::elements::{DataError, Element, ElementId, ElementTable, ElementView, EMPTY, State, defined_prefix, first_named, field, field_u8, field_str, field_i32, required_u8, required_str, required_i32, grow_spec};
use crate::field::{CellField, changes_reported, occupied, same_census, shape_kept, wake_kept};
use crate::heat::{agrees, holds_matter, model_of, with_cell, with_heat, HeatModel, AMBIENT_TEMPERATURE};
use crate::json::{self, Json, JsonView, jv_get, jv_str, jv_i32, jv_array};
use crate::rng;

verus! {

/// Which kind of machine this is, declared in the data file and permanent thereafter.
pub type EntityKind = u8;

/// What a machine does. The one part of an entity that cannot be data.
#[derive(Clone, Copy, PartialEq, Eq, Structural, Debug)]
pub enum Behaviour {
    /// Introduces matter into the world.
    Emit,
    /// Holds currency: a region the player has declared, where gold counts as money.
    Store,
    /// Presses product into currency.
    Press,
    /// Turns one specific element into whatever it is declared to refine into.
    Refine,
    /// Conveys whatever rests on top of it, or drops one chosen element through.
    Belt,
    /// Burns fuel to hold its own footprint hot.
    Heater,
}

/// Where a machine looks for the material it works on.
#[derive(Clone, Copy, PartialEq, Eq, Structural, Debug)]
pub enum Reach {
    /// Inside its own footprint: material that has fallen in.
    Body,
    /// The tile row directly beneath it, as wide as the machine.
    Below,
}

pub open spec fn reach_spec(t: Seq<u8>) -> Option<Reach> {
    if t == "body".spec_bytes() {
        Some(Reach::Body)
    } else if t == "below".spec_bytes() {
        Some(Reach::Below)
    } else {
        None
    }
}

pub open spec fn behaviour_spec(t: Seq<u8>) -> Option<Behaviour> {
    if t == "emit".spec_bytes() {
        Some(Behaviour::Emit)
    } else if t == "press".spec_bytes() {
        Some(Behaviour::Press)
    } else if t == "store".spec_bytes() {
        Some(Behaviour::Store)
    } else if t == "refine".spec_bytes() {
        Some(Behaviour::Refine)
    } else if t == "belt".spec_bytes() {
        Some(Behaviour::Belt)
    } else if t == "heater".spec_bytes() {
        Some(Behaviour::Heater)
    } else {
        None
    }
}

impl Reach {
    fn parse(text: &str) -> (r: Option<Reach>)
        ensures
            r == reach_spec(text.spec_bytes()),
    {
        if json::str_eq(text, "body") {
            Some(Reach::Body)
        } else if json::str_eq(text, "below") {
            Some(Reach::Below)
        } else {
            None
        }
    }
}

impl Behaviour {
    fn parse(text: &str) -> (r: Option<Behaviour>)
        ensures
            r == behaviour_spec(text.spec_bytes()),
    {
        if json::str_eq(text, "emit") {
            Some(Behaviour::Emit)
        } else if json::str_eq(text, "press") {
            Some(Behaviour::Press)
        } else if json::str_eq(text, "store") {
            Some(Behaviour::Store)
        } else if json::str_eq(text, "refine") {
            Some(Behaviour::Refine)
        } else if json::str_eq(text, "belt") {
            Some(Behaviour::Belt)
        } else if json::str_eq(text, "heater") {
            Some(Behaviour::Heater)
        } else {
            None
        }
    }
}

/// One placed machine. Everything shared by machines of a kind lives in the type.
#[derive(Clone, Copy, PartialEq, Eq, Structural, Debug)]
pub struct Entity {
    pub kind: EntityKind,
    pub tile_x: i32,
    pub tile_y: i32,
    /// What it works on: the element an emitter emits, or a filter lets through.
    pub element: ElementId,
    /// Footprint in tiles. Zero means "as the type says", filled in at placement.
    pub width_tiles: u32,
    pub height_tiles: u32,
    /// Value taken in but not yet pressed into a nugget, in points.
    pub bank: u32,
    /// Which way a belt conveys: `1` for increasing x, `-1` for decreasing.
    pub direction: i8,
    /// Whether this machine runs at all.
    pub enabled: bool,
    /// How much this machine does per action. Zero means "as the type says".
    pub rate: u32,
}

/// Everything about a kind of machine that is not its behaviour.
#[derive(Clone, Debug)]
pub struct EntityType {
    pub id: EntityKind,
    pub name: String,
    pub behaviour: Behaviour,
    /// Which client tool places it.
    pub tool: String,
    pub width_tiles: u32,
    pub height_tiles: u32,
    /// Cells emitted, pressed, refined or burned per action.
    pub rate: u32,
    /// Ticks between actions; `1` is every tick.
    pub interval: u32,
    /// Points a press must take in to make one cell of currency.
    pub gold_per: u32,
    /// The one element a refiner acts on, or a heater's fuel. `EMPTY` otherwise.
    pub input: ElementId,
    /// Where an emitter's opening is, in cells from the tile's left edge, and how wide.
    pub mouth_offset: u32,
    pub mouth_width: u32,
    /// What a belt's own body is made of. `EMPTY` for anything that is not a belt.
    pub chassis: ElementId,
    /// The whole-Kelvin temperature a heater holds its footprint at while fed.
    pub heat_output: i16,
    /// Where this machine looks for what it works on.
    pub reach: Reach,
}

/// An entity type as plain values; names are their UTF-8 bytes.
pub struct EntityTypeView {
    pub id: u8,
    pub name: Seq<u8>,
    pub behaviour: Behaviour,
    pub tool: Seq<u8>,
    pub width_tiles: u32,
    pub height_tiles: u32,
    pub rate: u32,
    pub interval: u32,
    pub gold_per: u32,
    pub input: u8,
    pub mouth_offset: u32,
    pub mouth_width: u32,
    pub chassis: u8,
    pub heat_output: i16,
    pub reach: Reach,
}

impl View for EntityType {
    type V = EntityTypeView;

    open spec fn view(&self) -> EntityTypeView {
        EntityTypeView {
            id: self.id,
            name: encode_utf8(self.name@),
            behaviour: self.behaviour,
            tool: encode_utf8(self.tool@),
            width_tiles: self.width_tiles,
            height_tiles: self.height_tiles,
            rate: self.rate,
            interval: self.interval,
            gold_per: self.gold_per,
            input: self.input,
            mouth_offset: self.mouth_offset,
            mouth_width: self.mouth_width,
            chassis: self.chassis,
            heat_output: self.heat_output,
            reach: self.reach,
        }
    }
}

/// Whether every cell of the machine's body lies in the 32-bit plane: its first cell
/// and its last, on both axes.
pub open spec fn fits_spec(e: Entity) -> bool {
    i32::MIN <= e.tile_x * 9 && (e.tile_x + e.width_tiles) * 9 - 1 <= i32::MAX && i32::MIN <= e.tile_y * 9 && (
    e.tile_y + e.height_tiles) * 9 - 1 <= i32::MAX
}

/// Whether the machine's left edge and its mouth row lie in the 32-bit plane: what an
/// emitter computes.
pub open spec fn mouth_fits(e: Entity) -> bool {
    i32::MIN <= e.tile_x * 9 <= i32::MAX && i32::MIN <= (e.tile_y + e.height_tiles) * 9 <= i32::MAX
}

/// Whether the cells a machine reaches lie in the 32-bit plane: its body, or the tile
/// row beneath it.
pub open spec fn reach_fits(e: Entity, reach: Reach) -> bool {
    match reach {
        Reach::Body => fits_spec(e),
        Reach::Below => i32::MIN <= e.tile_x * 9 && (e.tile_x + e.width_tiles) * 9 - 1 <= i32::MAX && i32::MIN <= (
        e.tile_y + e.height_tiles) * 9 && (e.tile_y + e.height_tiles) * 9 + 8 <= i32::MAX,
    }
}

/// Whether everything a machine of this definition computes lies in the 32-bit plane:
/// the mouth row for an emitter, the reach for a refiner, nothing for a vault, and the
/// body otherwise.
pub open spec fn works_in_plane(e: Entity, def: EntityTypeView) -> bool {
    match def.behaviour {
        Behaviour::Emit => mouth_fits(e),
        Behaviour::Refine => reach_fits(e, def.reach),
        Behaviour::Store => true,
        Behaviour::Press | Behaviour::Belt | Behaviour::Heater => fits_spec(e),
    }
}

/// The cells inside the machine: `(x0, y0, x1, y1)`, inclusive.
pub open spec fn body_spec(e: Entity) -> (int, int, int, int) {
    (e.tile_x * 9, e.tile_y * 9, e.tile_x * 9 + e.width_tiles * 9 - 1, e.tile_y * 9 + e.height_tiles * 9 - 1)
}

/// The row an emitter's material appears in: immediately below its footprint.
pub open spec fn mouth_spec(e: Entity) -> int {
    (e.tile_y + e.height_tiles) * 9
}

/// The cells a machine works on, given where its type says it reaches.
pub open spec fn reach_area_spec(e: Entity, reach: Reach) -> (int, int, int, int) {
    match reach {
        Reach::Body => body_spec(e),
        Reach::Below => (e.tile_x * 9, mouth_spec(e), e.tile_x * 9 + e.width_tiles * 9 - 1, mouth_spec(e) + 8),
    }
}

pub open spec fn in_area(a: (int, int, int, int), x: int, y: int) -> bool {
    a.0 <= x <= a.2 && a.1 <= y <= a.3
}

impl Entity {
    pub fn new(kind: EntityKind, tile_x: i32, tile_y: i32, element: ElementId) -> (r: Entity)
        ensures
            r == (Entity {
                kind,
                tile_x,
                tile_y,
                element,
                width_tiles: 0,
                height_tiles: 0,
                bank: 0,
                direction: 1,
                enabled: true,
                rate: 0,
            }),
    {
        Entity {
            kind,
            tile_x,
            tile_y,
            element,
            width_tiles: 0,
            height_tiles: 0,
            bank: 0,
            direction: 1,
            enabled: true,
            rate: 0,
        }
    }

    /// An entity with a footprint the player chose, for the ones that have one.
    pub fn sized(kind: EntityKind, tile_x: i32, tile_y: i32, width_tiles: u32, height_tiles: u32) -> (r: Entity)
        ensures
            r == (Entity {
                kind,
                tile_x,
                tile_y,
                element: EMPTY,
                width_tiles,
                height_tiles,
                bank: 0,
                direction: 1,
                enabled: true,
                rate: 0,
            }),
    {
        Entity {
            kind,
            tile_x,
            tile_y,
            element: EMPTY,
            width_tiles,
            height_tiles,
            bank: 0,
            direction: 1,
            enabled: true,
            rate: 0,
        }
    }

    /// A belt, conveying in the direction given (`1` or `-1`).
    pub fn belt(kind: EntityKind, tile_x: i32, tile_y: i32, direction: i8) -> (r: Entity)
        ensures
            r == (Entity {
                kind,
                tile_x,
                tile_y,
                element: EMPTY,
                width_tiles: 0,
                height_tiles: 0,
                bank: 0,
                direction,
                enabled: true,
                rate: 0,
            }),
    {
        Entity {
            kind,
            tile_x,
            tile_y,
            element: EMPTY,
            width_tiles: 0,
            height_tiles: 0,
            bank: 0,
            direction,
            enabled: true,
            rate: 0,
        }
    }

    /// A filter: a belt that lets `element` fall through its underside instead.
    pub fn filter(kind: EntityKind, tile_x: i32, tile_y: i32, direction: i8, element: ElementId) -> (r: Entity)
        ensures
            r == (Entity {
                kind,
                tile_x,
                tile_y,
                element,
                width_tiles: 0,
                height_tiles: 0,
                bank: 0,
                direction,
                enabled: true,
                rate: 0,
            }),
    {
        Entity {
            kind,
            tile_x,
            tile_y,
            element,
            width_tiles: 0,
            height_tiles: 0,
            bank: 0,
            direction,
            enabled: true,
            rate: 0,
        }
    }

    /// Fills in whatever the instance left as zero from the type.
    pub fn defaults_from(&mut self, definition: &EntityType)
        ensures
            final(self).width_tiles == (if old(self).width_tiles == 0 {
                definition.width_tiles
            } else {
                old(self).width_tiles
            }),
            final(self).height_tiles == (if old(self).height_tiles == 0 {
                definition.height_tiles
            } else {
                old(self).height_tiles
            }),
            final(self).rate == (if old(self).rate == 0 {
                definition.rate
            } else {
                old(self).rate
            }),
            final(self).kind == old(self).kind,
            final(self).tile_x == old(self).tile_x,
            final(self).tile_y == old(self).tile_y,
            final(self).element == old(self).element,
            final(self).bank == old(self).bank,
            final(self).direction == old(self).direction,
            final(self).enabled == old(self).enabled,
    {
        if self.width_tiles == 0 {
            self.width_tiles = definition.width_tiles;
        }
        if self.height_tiles == 0 {
            self.height_tiles = definition.height_tiles;
        }
        if self.rate == 0 {
            self.rate = definition.rate;
        }
    }

    /// How much this machine does per action: the instance's rate, or the type's when
    /// the instance left it as zero.
    pub fn effective_rate(&self, definition: &EntityType) -> (r: u32)
        ensures
            r == (if self.rate == 0 {
                definition.rate
            } else {
                self.rate
            }),
    {
        if self.rate == 0 {
            definition.rate
        } else {
            self.rate
        }
    }

    /// Whether every cell of this machine's body lies in the 32-bit plane.
    pub fn fits(&self) -> (r: bool)
        ensures
            r == fits_spec(*self),
    {
        let x0: i64 = self.tile_x as i64 * 9;
        let x1: i64 = (self.tile_x as i64 + self.width_tiles as i64) * 9 - 1;
        let y0: i64 = self.tile_y as i64 * 9;
        let y1: i64 = (self.tile_y as i64 + self.height_tiles as i64) * 9 - 1;
        (i32::MIN as i64) <= x0 && x1 <= (i32::MAX as i64) && (i32::MIN as i64) <= y0 && y1 <= (i32::MAX as i64)
    }

    /// Whether everything this machine computes when it acts, or when it is asked
    /// whether it is blocked, lies in the 32-bit plane.
    pub(crate) fn works_in_plane(&self, definition: &EntityType) -> (r: bool)
        ensures
            r == works_in_plane(*self, definition@),
    {
        let x0: i64 = self.tile_x as i64 * 9;
        let x1: i64 = (self.tile_x as i64 + self.width_tiles as i64) * 9 - 1;
        let mouth: i64 = (self.tile_y as i64 + self.height_tiles as i64) * 9;
        match definition.behaviour {
            Behaviour::Emit => (i32::MIN as i64) <= x0 && x0 <= (i32::MAX as i64) && (i32::MIN as i64) <= mouth && mouth
                <= (i32::MAX as i64),
            Behaviour::Refine => match definition.reach {
                Reach::Body => self.fits(),
                Reach::Below => (i32::MIN as i64) <= x0 && x1 <= (i32::MAX as i64) && (i32::MIN as i64) <= mouth && mouth
                    + 8 <= (i32::MAX as i64),
            },
            Behaviour::Store => true,
            Behaviour::Press | Behaviour::Belt | Behaviour::Heater => self.fits(),
        }
    }

    pub fn left(&self) -> (r: i32)
        requires
            i32::MIN <= self.tile_x * 9 <= i32::MAX,
        ensures
            r == self.tile_x * 9,
    {
        self.tile_x * 9
    }

    pub fn top(&self) -> (r: i32)
        requires
            i32::MIN <= self.tile_y * 9 <= i32::MAX,
        ensures
            r == self.tile_y * 9,
    {
        self.tile_y * 9
    }

    /// The row an emitter's material appears in: immediately below its footprint, so
    /// the sprite can fill the tile without emitted matter appearing inside it.
    pub fn mouth(&self) -> (r: i32)
        requires
            i32::MIN <= mouth_spec(*self) <= i32::MAX,
        ensures
            r == mouth_spec(*self),
    {
        ((self.tile_y as i64 + self.height_tiles as i64) * 9) as i32
    }

    /// The cells inside the machine, which is what a press works on.
    pub fn body(&self) -> (r: (i32, i32, i32, i32))
        requires
            fits_spec(*self),
        ensures
            (r.0 as int, r.1 as int, r.2 as int, r.3 as int) == body_spec(*self),
    {
        let left: i64 = self.tile_x as i64 * 9;
        let top: i64 = self.tile_y as i64 * 9;
        (
            left as i32,
            top as i32,
            (left + self.width_tiles as i64 * 9 - 1) as i32,
            (top + self.height_tiles as i64 * 9 - 1) as i32,
        )
    }

    /// The cells a machine works on: its own footprint, or the tile row beneath it.
    pub fn reach_area(&self, reach: Reach) -> (r: (i32, i32, i32, i32))
        requires
            reach_fits(*self, reach),
        ensures
            (r.0 as int, r.1 as int, r.2 as int, r.3 as int) == reach_area_spec(*self, reach),
    {
        match reach {
            Reach::Body => self.body(),
            Reach::Below => {
                let left: i64 = self.tile_x as i64 * 9;
                let top: i64 = self.mouth() as i64;
                (left as i32, top as i32, (left + self.width_tiles as i64 * 9 - 1) as i32, (top + 8) as i32)
            },
        }
    }

    /// Whether this covers a tile, accounting for a footprint wider than one.
    pub fn covers(&self, tile_x: i32, tile_y: i32) -> (r: bool)
        ensures
            r == (self.tile_x <= tile_x < self.tile_x + self.width_tiles && self.tile_y <= tile_y < self.tile_y
                + self.height_tiles),
    {
        tile_x >= self.tile_x && tile_y >= self.tile_y && (tile_x as i64) < self.tile_x as i64 + self.width_tiles as i64
            && (tile_y as i64) < self.tile_y as i64 + self.height_tiles as i64
    }
}

/// The optional whole number under `key`, if present and a whole number.
pub open spec fn opt_i32(e: JsonView, key: &'static str) -> Option<i32> {
    match jv_get(e, key.spec_bytes()) {
        Some(v) => jv_i32(v),
        None => None,
    }
}

/// The optional string under `key`, if present and a string.
pub open spec fn opt_str(e: JsonView, key: &'static str) -> Option<Seq<u8>> {
    match jv_get(e, key.spec_bytes()) {
        Some(v) => jv_str(v),
        None => None,
    }
}

/// An element named by an optional field: absent means `default`, and a name that is
/// not defined is refused.
pub open spec fn named_or(e: JsonView, key: &'static str, els: Seq<Option<ElementView>>, absent: Result<u8, DataError>) -> Result<u8, DataError> {
    match opt_str(e, key) {
        Some(name) => match first_named(els, name, 0) {
            Some(id) => Ok(id),
            None => Err(DataError::BadField { field: key }),
        },
        None => absent,
    }
}

/// The fields after the required ones, in the order they are checked.
#[verifier::opaque]
pub open spec fn entity_rest_spec(e: JsonView, els: Seq<Option<ElementView>>, id: u8, behaviour: Behaviour, width: u32, name: Seq<u8>, tool: Seq<u8>, height: u32) -> Result<EntityTypeView, DataError> {
    let rate = match opt_i32(e, "rate") {
        Some(v) => if v > 0 { v as u32 } else { 0 },
        None => 1,
    };
    let interval = match opt_i32(e, "interval") {
        Some(v) => if v > 1 { v as u32 } else { 1 },
        None => 1,
    };
    let gold_per = match opt_i32(e, "goldPer") {
        Some(v) => if v > 1 { v as u32 } else { 1 },
        None => 1,
    };
    let mouth_offset = match opt_i32(e, "mouthOffset") {
        Some(v) => if v >= 0 { v as u32 } else { 0 },
        None => 0,
    };
    match named_or(e, "input", els, Ok(EMPTY)) {
        Err(err) => Err(err),
        Ok(input) => {
            let mouth = match opt_i32(e, "mouthWidth") {
                Some(v) => if v > 0 { Ok(v as u32) } else { Err(DataError::BadField { field: "mouthWidth" }) },
                None => if width * 9 <= u32::MAX { Ok((width * 9) as u32) } else { Err(DataError::BadField { field: "widthTiles" }) },
            };
            match mouth {
                Err(err) => Err(err),
                Ok(mouth_width) => {
                    let missing_chassis = if behaviour == Behaviour::Belt {
                        Err(DataError::BadField { field: "chassis" })
                    } else {
                        Ok(EMPTY)
                    };
                    match named_or(e, "chassis", els, missing_chassis) {
                        Err(err) => Err(err),
                        Ok(chassis) => {
                            let reach = match opt_str(e, "reach") {
                                Some(t) => match reach_spec(t) {
                                    Some(r) => Ok(r),
                                    None => Err(DataError::BadField { field: "reach" }),
                                },
                                None => Ok(Reach::Body),
                            };
                            match reach {
                                Err(err) => Err(err),
                                Ok(reach) => {
                                    let heat = match opt_i32(e, "heatOutput") {
                                        Some(v) => if i16::MIN <= v <= i16::MAX {
                                            Ok(v as i16)
                                        } else {
                                            Err(DataError::BadField { field: "heatOutput" })
                                        },
                                        None => if behaviour == Behaviour::Heater {
                                            Err(DataError::BadField { field: "heatOutput" })
                                        } else {
                                            Ok(0i16)
                                        },
                                    };
                                    match heat {
                                        Err(err) => Err(err),
                                        Ok(heat_output) => Ok(
                                            EntityTypeView {
                                                id,
                                                name,
                                                behaviour,
                                                tool,
                                                width_tiles: width,
                                                height_tiles: height,
                                                rate,
                                                interval,
                                                gold_per,
                                                input,
                                                mouth_offset,
                                                mouth_width,
                                                chassis,
                                                heat_output,
                                                reach,
                                            },
                                        ),
                                    }
                                },
                            }
                        },
                    }
                },
            }
        },
    }
}

/// One entry of `entities`. The required fields are checked in the order id,
/// behaviour, widthTiles, name, tool, heightTiles; then the optional ones.
#[verifier::opaque]
pub open spec fn entity_spec(e: JsonView, els: Seq<Option<ElementView>>) -> Result<EntityTypeView, DataError> {
    match required_u8(e, "id") {
        Err(err) => Err(err),
        Ok(id) => if id == 0 {
            Err(DataError::ReservedId)
        } else {
            match required_str(e, "behaviour") {
                Err(err) => Err(err),
                Ok(text) => match behaviour_spec(text) {
                    None => Err(DataError::BadField { field: "behaviour" }),
                    Some(behaviour) => match required_i32(e, "widthTiles") {
                        Err(err) => Err(err),
                        Ok(w) => if w <= 0 {
                            Err(DataError::BadField { field: "widthTiles" })
                        } else {
                            match required_str(e, "name") {
                                Err(err) => Err(err),
                                Ok(name) => if name.len() == 0 {
                                    Err(DataError::BadField { field: "name" })
                                } else {
                                    match required_str(e, "tool") {
                                        Err(err) => Err(err),
                                        Ok(tool) => match required_i32(e, "heightTiles") {
                                            Err(err) => Err(err),
                                            Ok(h) => if h <= 0 {
                                                Err(DataError::BadField { field: "heightTiles" })
                                            } else {
                                                entity_rest_spec(e, els, id, behaviour, w as u32, name, tool, h as u32)
                                            },
                                        },
                                    }
                                },
                            }
                        },
                    },
                },
            }
        },
    }
}

/// Entries `i..` placed at their declared ids, stopping at the first refusal.
pub open spec fn entity_place_spec(entries: Seq<JsonView>, els: Seq<Option<ElementView>>, i: int, slots: Seq<Option<EntityTypeView>>) -> Result<Seq<Option<EntityTypeView>>, DataError>
    decreases entries.len() - i,
{
    if i < 0 || i >= entries.len() {
        Ok(slots)
    } else {
        match entity_spec(entries[i], els) {
            Err(e) => Err(e),
            Ok(t) => {
                let grown = grow_spec(slots, t.id as int + 1);
                if grown[t.id as int] is Some {
                    Err(DataError::DuplicateId(t.id))
                } else {
                    entity_place_spec(entries, els, i + 1, grown.update(t.id as int, Some(t)))
                }
            },
        }
    }
}

/// The whole loader. A file without an `entities` array has no machines.
pub open spec fn entity_table_spec(b: Seq<u8>, els: Seq<Option<ElementView>>) -> Result<Seq<Option<EntityTypeView>>, DataError> {
    match json::parse_spec(b) {
        Err(e) => Err(DataError::Json(e)),
        Ok(doc) => match jv_get(doc, "entities".spec_bytes()) {
            None => Ok(Seq::empty()),
            Some(v) => match jv_array(v) {
                None => Ok(Seq::empty()),
                Some(entries) => entity_place_spec(entries, els, 0, Seq::empty()),
            },
        },
    }
}

pub open spec fn entity_slots_view(slots: Seq<Option<EntityType>>) -> Seq<Option<EntityTypeView>> {
    slots.map_values(|s: Option<EntityType>| match s {
        Some(t) => Some(t@),
        None => None,
    })
}

/// The first id, from `i` on, whose type has this name.
pub open spec fn first_entity_named(slots: Seq<Option<EntityTypeView>>, name: Seq<u8>, i: int) -> Option<u8>
    decreases slots.len() - i,
{
    if i < 0 || i >= slots.len() {
        None
    } else if slots[i] is Some && slots[i].unwrap().name == name {
        Some(slots[i].unwrap().id)
    } else {
        first_entity_named(slots, name, i + 1)
    }
}

/// How many of the first `n` slots hold a type.
pub open spec fn count_types(slots: Seq<Option<EntityTypeView>>, n: int) -> nat
    decreases n,
{
    if n <= 0 || slots.len() == 0 {
        0
    } else if n > slots.len() {
        count_types(slots, slots.len() as int)
    } else {
        count_types(slots, n - 1) + if slots[n - 1] is Some {
            1nat
        } else {
            0nat
        }
    }
}

/// Entity types indexed by id: a `Vec`, never a map, so iteration order cannot reach
/// the simulation.
#[derive(Clone, Debug)]
pub struct EntityTable {
    slots: Vec<Option<EntityType>>,
}

impl View for EntityTable {
    type V = Seq<Option<EntityTypeView>>;

    closed spec fn view(&self) -> Seq<Option<EntityTypeView>> {
        entity_slots_view(self.slots@)
    }
}

impl Default for EntityTable {
    fn default() -> (r: EntityTable)
        ensures
            r@.len() == 0,
    {
        EntityTable { slots: Vec::new() }
    }
}

impl EntityTable {
    pub closed spec fn wf(&self) -> bool {
        forall|i: int| 0 <= i < self.slots@.len() && (#[trigger] self.slots@[i]) is Some ==> self.slots@[i].unwrap().id == i
    }

    /// Reads the `entities` array. Its absence is not an error: a world with no
    /// machines is a perfectly good world.
    pub fn from_json(source: &str, elements: &ElementTable) -> (r: Result<EntityTable, DataError>)
        ensures
            match r {
                Ok(t) => entity_table_spec(source.spec_bytes(), elements@) == Ok::<Seq<Option<EntityTypeView>>, DataError>(t@) && t.wf(),
                Err(e) => entity_table_spec(source.spec_bytes(), elements@) == Err::<Seq<Option<EntityTypeView>>, DataError>(e),
            },
    {
        let document: Json = match json::parse(source) {
            Ok(d) => d,
            Err(e) => {
                return Err(DataError::Json(e));
            },
        };
        let entries: &[Json] = match document.get("entities") {
            Some(v) => match v.as_array() {
                Some(items) => items,
                None => {
                    let t = EntityTable::default();
                    proof {
                        assert(t@ =~= Seq::<Option<EntityTypeView>>::empty());
                    }
                    return Ok(t);
                },
            },
            None => {
                let t = EntityTable::default();
                proof {
                    assert(t@ =~= Seq::<Option<EntityTypeView>>::empty());
                }
                return Ok(t);
            },
        };
        let ghost es = json::items_view(entries@);
        let mut slots: Vec<Option<EntityType>> = Vec::new();
        proof {
            json::lemma_items_view_len(entries@);
            let doc = json::parse_spec(source.spec_bytes()).unwrap();
            assert(doc == document@);
            assert(jv_get(doc, "entities".spec_bytes()) is Some);
            assert(jv_array(jv_get(doc, "entities".spec_bytes()).unwrap()) == Some(es));
            assert(entity_slots_view(slots@) =~= Seq::<Option<EntityTypeView>>::empty());
        }
        let mut i: usize = 0;
        while i < entries.len()
            invariant
                es == json::items_view(entries@),
                es.len() == entries@.len(),
                0 <= i <= entries@.len(),
                entity_table_spec(source.spec_bytes(), elements@) == entity_place_spec(es, elements@, i as int, entity_slots_view(slots@)),
                forall|k: int| 0 <= k < slots@.len() && (#[trigger] slots@[k]) is Some ==> slots@[k].unwrap().id == k,
            decreases entries@.len() - i,
        {
            proof {
                json::lemma_items_view_index(entries@, i as int);
            }
            let definition = match parse_entity(&entries[i], elements) {
                Ok(d) => d,
                Err(e) => {
                    return Err(e);
                },
            };
            let index: usize = definition.id as usize;
            let ghost before = entity_slots_view(slots@);
            let ghost pre = slots@;
            while slots.len() <= index
                invariant
                    slots@.len() >= pre.len(),
                    slots@.len() == pre.len() || slots@.len() <= index + 1,
                    slots@.subrange(0, pre.len() as int) == pre,
                    forall|k: int| pre.len() <= k < slots@.len() ==> (#[trigger] slots@[k]) is None,
                decreases index + 1 - slots@.len(),
            {
                slots.push(None);
            }
            proof {
                assert(entity_slots_view(slots@) =~= grow_spec(before, index as int + 1));
                assert forall|k: int| 0 <= k < slots@.len() && (#[trigger] slots@[k]) is Some implies slots@[k].unwrap().id == k by {
                    if k < pre.len() {
                        assert(slots@[k] == pre[k]);
                    }
                }
            }
            if slots[index].is_some() {
                return Err(DataError::DuplicateId(definition.id));
            }
            let ghost grown = slots@;
            let ghost v = definition@;
            slots.set(index, Some(definition));
            proof {
                assert(entity_slots_view(slots@) =~= entity_slots_view(grown).update(index as int, Some(v)));
            }
            i = i + 1;
        }
        Ok(EntityTable { slots })
    }

    pub fn get(&self, kind: EntityKind) -> (r: Option<&EntityType>)
        ensures
            match r {
                Some(t) => (kind as int) < self@.len() && self@[kind as int] == Some(t@),
                None => kind as int >= self@.len() || self@[kind as int] is None,
            },
            r is Some && self.wf() ==> r.unwrap().id == kind,
    {
        if (kind as usize) < self.slots.len() {
            match &self.slots[kind as usize] {
                Some(t) => Some(t),
                None => None,
            }
        } else {
            None
        }
    }

    /// Looks a type up by name: the lowest id with that name.
    pub fn id_of(&self, name: &str) -> (r: Option<EntityKind>)
        ensures
            r == first_entity_named(self@, name.spec_bytes(), 0),
    {
        let ghost v = self@;
        let mut k: usize = 0;
        while k < self.slots.len()
            invariant
                v == entity_slots_view(self.slots@),
                0 <= k <= self.slots@.len(),
                first_entity_named(v, name.spec_bytes(), 0) == first_entity_named(v, name.spec_bytes(), k as int),
            decreases self.slots@.len() - k,
        {
            match &self.slots[k] {
                Some(t) => {
                    if json::str_eq(t.name.as_str(), name) {
                        return Some(t.id);
                    }
                },
                None => {},
            }
            k = k + 1;
        }
        None
    }

    /// Every type, in id order.
    pub fn iter(&self) -> (r: Vec<&EntityType>)
        ensures
            r@.len() == count_types(self@, self@.len() as int),
            r@.map_values(|t: &EntityType| t@) == defined_prefix(self@, self@.len() as int),
    {
        let mut out: Vec<&EntityType> = Vec::new();
        let mut k: usize = 0;
        proof {
            assert(out@.map_values(|t: &EntityType| t@) =~= defined_prefix(self@, 0));
        }
        while k < self.slots.len()
            invariant
                0 <= k <= self.slots@.len(),
                out@.len() == count_types(self@, k as int),
                out@.map_values(|t: &EntityType| t@) == defined_prefix(self@, k as int),
                self@ == entity_slots_view(self.slots@),
            decreases self.slots@.len() - k,
        {
            let ghost before = out@;
            match &self.slots[k] {
                Some(t) => {
                    out.push(t);
                    proof {
                        assert(out@.map_values(|t: &EntityType| t@) =~= before.map_values(|t: &EntityType| t@).push(t@));
                    }
                },
                None => {},
            }
            k = k + 1;
        }
        out
    }

    pub fn len(&self) -> (r: usize)
        ensures
            r == count_types(self@, self@.len() as int),
    {
        let mut count: usize = 0;
        let mut k: usize = 0;
        while k < self.slots.len()
            invariant
                0 <= k <= self.slots@.len(),
                count == count_types(self@, k as int),
                count <= k,
                self@ == entity_slots_view(self.slots@),
            decreases self.slots@.len() - k,
        {
            if self.slots[k].is_some() {
                count = count + 1;
            }
            k = k + 1;
        }
        count
    }

    pub fn is_empty(&self) -> (r: bool)
        ensures
            r == (count_types(self@, self@.len() as int) == 0),
    {
        self.len() == 0
    }
}

/// The optional whole number under `key`.
fn optional_i32(entry: &Json, key: &'static str) -> (r: Option<i32>)
    ensures
        r == opt_i32(entry@, key),
{
    match entry.get(key) {
        Some(v) => v.as_i32(),
        None => None,
    }
}

/// The optional string under `key`.
fn optional_str<'a>(entry: &Json<'a>, key: &'static str) -> (r: Option<&'a str>)
    ensures
        match r {
            Some(t) => opt_str(entry@, key) == Some(t.spec_bytes()),
            None => opt_str(entry@, key) is None,
        },
{
    match entry.get(key) {
        Some(v) => v.as_str(),
        None => None,
    }
}

/// An element named by an optional field.
fn named_element(entry: &Json, key: &'static str, elements: &ElementTable, absent: Result<u8, DataError>) -> (r: Result<u8, DataError>)
    ensures
        r == named_or(entry@, key, elements@, absent),
{
    match optional_str(entry, key) {
        Some(name) => match elements.id_of(name) {
            Some(id) => Ok(id),
            None => Err(DataError::BadField { field: key }),
        },
        None => absent,
    }
}

pub(crate) fn owned(text: &str) -> (r: String)
    ensures
        encode_utf8(r@) == text.spec_bytes(),
{
    text.to_owned()
}

fn parse_entity(entry: &Json, elements: &ElementTable) -> (r: Result<EntityType, DataError>)
    ensures
        match r {
            Ok(t) => entity_spec(entry@, elements@) == Ok::<EntityTypeView, DataError>(t@),
            Err(e) => entity_spec(entry@, elements@) == Err::<EntityTypeView, DataError>(e),
        },
{
    reveal(entity_spec);
    reveal(entity_rest_spec);
    let id: u8 = match field_u8(entry, "id") {
        Ok(x) => x,
        Err(e) => {
            return Err(e);
        },
    };
    if id == 0 {
        // Zero means "no entity", as it means "no element" for cells.
        return Err(DataError::ReservedId);
    }
    let behaviour_text: &str = match field_str(entry, "behaviour") {
        Ok(t) => t,
        Err(e) => {
            return Err(e);
        },
    };
    let behaviour = match Behaviour::parse(behaviour_text) {
        Some(b) => b,
        None => {
            return Err(DataError::BadField { field: "behaviour" });
        },
    };
    let width: i32 = match field_i32(entry, "widthTiles") {
        Ok(w) => w,
        Err(e) => {
            return Err(e);
        },
    };
    if width <= 0 {
        return Err(DataError::BadField { field: "widthTiles" });
    }
    let name: &str = match field_str(entry, "name") {
        Ok(t) => t,
        Err(e) => {
            return Err(e);
        },
    };
    if name.is_empty() {
        proof {
            vstd::utf8::encode_utf8_valid_utf8(name@);
            assert(name.spec_bytes().len() == 0) by {
                reveal_with_fuel(encode_utf8, 2);
            }
        }
        return Err(DataError::BadField { field: "name" });
    }
    proof {
        assert(name.spec_bytes().len() != 0) by {
            reveal_with_fuel(encode_utf8, 2);
            if name.spec_bytes().len() == 0 {
                vstd::utf8::encode_utf8_decode_utf8(name@);
            }
        }
    }
    let tool: &str = match field_str(entry, "tool") {
        Ok(t) => t,
        Err(e) => {
            return Err(e);
        },
    };
    let height: i32 = match field_i32(entry, "heightTiles") {
        Ok(h) => h,
        Err(e) => {
            return Err(e);
        },
    };
    if height <= 0 {
        return Err(DataError::BadField { field: "heightTiles" });
    }
    let rate: u32 = match optional_i32(entry, "rate") {
        Some(v) => if v > 0 { v as u32 } else { 0 },
        None => 1,
    };
    // A zero interval would divide by zero, and a zero price would mint infinitely.
    let interval: u32 = match optional_i32(entry, "interval") {
        Some(v) => if v > 1 { v as u32 } else { 1 },
        None => 1,
    };
    let gold_per: u32 = match optional_i32(entry, "goldPer") {
        Some(v) => if v > 1 { v as u32 } else { 1 },
        None => 1,
    };
    let input: u8 = match named_element(entry, "input", elements, Ok(EMPTY)) {
        Ok(i) => i,
        Err(e) => {
            return Err(e);
        },
    };
    let mouth_offset: u32 = match optional_i32(entry, "mouthOffset") {
        Some(v) => if v >= 0 { v as u32 } else { 0 },
        None => 0,
    };
    // Absent means the whole tile is the opening.
    let mouth_width: u32 = match optional_i32(entry, "mouthWidth") {
        Some(v) => {
            if v > 0 {
                v as u32
            } else {
                return Err(DataError::BadField { field: "mouthWidth" });
            }
        },
        None => {
            if width as u64 * 9 <= u32::MAX as u64 {
                (width as u64 * 9) as u32
            } else {
                return Err(DataError::BadField { field: "widthTiles" });
            }
        },
    };
    // Required for a belt, since without it placement would have nothing to fill its
    // footprint with.
    let missing_chassis = if behaviour == Behaviour::Belt {
        Err(DataError::BadField { field: "chassis" })
    } else {
        Ok(EMPTY)
    };
    let chassis: u8 = match named_element(entry, "chassis", elements, missing_chassis) {
        Ok(c) => c,
        Err(e) => {
            return Err(e);
        },
    };
    let reach: Reach = match optional_str(entry, "reach") {
        Some(text) => match Reach::parse(text) {
            Some(r) => r,
            None => {
                return Err(DataError::BadField { field: "reach" });
            },
        },
        None => Reach::Body,
    };
    // Required for a heater, the same way `chassis` is required for a belt.
    let heat_output: i16 = match optional_i32(entry, "heatOutput") {
        Some(v) => {
            if -32768 <= v && v <= 32767 {
                v as i16
            } else {
                return Err(DataError::BadField { field: "heatOutput" });
            }
        },
        None => {
            if behaviour == Behaviour::Heater {
                return Err(DataError::BadField { field: "heatOutput" });
            }
            0
        },
    };
    Ok(EntityType {
        id,
        name: owned(name),
        behaviour,
        tool: owned(tool),
        width_tiles: width as u32,
        height_tiles: height as u32,
        rate,
        interval,
        gold_per,
        input,
        mouth_offset,
        mouth_width,
        chassis,
        heat_output,
        reach,
    })
}


broadcast use vstd::seq_lib::group_to_multiset_ensures;

/// Whether a press would take this cell: only what it can actually press. Walls, water,
/// unwashed sand and the nuggets it has already made fall straight through.
pub open spec fn pressable_spec(cell: Option<ElementId>, els: Seq<Option<ElementView>>) -> bool {
    match cell {
        Some(id) => id != EMPTY && (id as int) < els.len() && els[id as int] is Some && els[id as int].unwrap().value > 0
            && !els[id as int].unwrap().currency,
        None => false,
    }
}

/// Whether a refiner of this `input` would take this cell: it must be the input, and
/// the input must declare what it refines into.
pub open spec fn refinable_spec(cell: Option<ElementId>, els: Seq<Option<ElementView>>, input: ElementId) -> bool {
    match cell {
        Some(id) => id == input && (id as int) < els.len() && els[id as int] is Some && els[id as int].unwrap().refined_into
            != EMPTY,
        None => false,
    }
}

/// The cell an emitter's mouth would fill at `offset`, or `None` off the plane.
pub open spec fn mouth_cell<F: CellField>(e: Entity, def: EntityTypeView, f: F, offset: int) -> Option<ElementId> {
    let x = e.tile_x * 9 + def.mouth_offset + offset;
    if i32::MIN <= x <= i32::MAX {
        f.cell(x as i32, mouth_spec(e) as i32)
    } else {
        None
    }
}

/// Whether a machine cannot do its job right now: an emitter whose every mouth cell is
/// occupied, a press or refiner with nothing it can take, a jammed belt, a heater with
/// no fuel. A vault cannot be blocked.
pub open spec fn blocked_spec<F: CellField>(e: Entity, def: EntityTypeView, f: F, els: Seq<Option<ElementView>>) -> bool {
    match def.behaviour {
        Behaviour::Emit => emit_blocked(e, def, f),
        Behaviour::Press => press_blocked(e, f, els),
        Behaviour::Refine => refine_blocked(e, def, f, els),
        Behaviour::Store => false,
        Behaviour::Belt => belt_jammed(e, f),
        Behaviour::Heater => heater_idle(e, def, f),
    }
}

/// Every cell an emitter's mouth could fill is occupied.
pub open spec fn emit_blocked<F: CellField>(e: Entity, def: EntityTypeView, f: F) -> bool {
    forall|o: int| 0 <= o < def.mouth_width ==> #[trigger] mouth_cell(e, def, f, o) != Some(EMPTY)
}

/// Nothing in a press's body can be pressed.
pub open spec fn press_blocked<F: CellField>(e: Entity, f: F, els: Seq<Option<ElementView>>) -> bool {
    forall|x: i32, y: i32| in_area(body_spec(e), x as int, y as int) ==> !pressable_spec(#[trigger] f.cell(x, y), els)
}

/// Nothing in a refiner's reach can be refined.
pub open spec fn refine_blocked<F: CellField>(e: Entity, def: EntityTypeView, f: F, els: Seq<Option<ElementView>>) -> bool {
    forall|x: i32, y: i32|
        in_area(reach_area_spec(e, def.reach), x as int, y as int) ==> !refinable_spec(#[trigger] f.cell(x, y), els, def.input)
}

/// Cargo rests on the belt that cannot advance.
pub open spec fn belt_jammed<F: CellField>(e: Entity, f: F) -> bool {
    exists|x: i32| body_spec(e).0 <= x <= body_spec(e).2 && #[trigger] jammed_at(f, x, (body_spec(e).1 - 1) as i32, e.direction)
}

/// No fuel anywhere in a heater's body.
pub open spec fn heater_idle<F: CellField>(e: Entity, def: EntityTypeView, f: F) -> bool {
    forall|x: i32, y: i32| in_area(body_spec(e), x as int, y as int) ==> #[trigger] f.cell(x, y) != Some(def.input)
}

/// Whether the belt cargo at column `x` of row `row` is jammed: something rests there
/// and the cell it would move into is not empty.
pub open spec fn jammed_at<F: CellField>(f: F, x: i32, row: i32, direction: i8) -> bool {
    f.cell(x, row) is Some && f.cell(x, row) != Some(EMPTY) && f.cell((x + direction) as i32, row) != Some(EMPTY)
}

/// Whether a machine of this kind acts on this tick. Pure arithmetic on the tick, so a
/// replay lands on the same beat.
pub open spec fn acts_spec(def: EntityTypeView, tick: u64) -> bool {
    def.interval <= 1 || (tick as int) % (def.interval as int) == 0
}

/// Only cells inside `area` differ between the two fields.
pub open spec fn changed_only_in<F: CellField>(a: F, b: F, area: (int, int, int, int)) -> bool {
    forall|x: i32, y: i32| #[trigger] b.cell(x, y) != a.cell(x, y) ==> in_area(area, x as int, y as int)
}

fn is_pressable(cell: Option<ElementId>, elements: &ElementTable) -> (r: bool)
    ensures
        r == pressable_spec(cell, elements@),
{
    let id = match cell {
        Some(id) => id,
        None => {
            return false;
        },
    };
    match elements.get(id) {
        Some(element) => id != EMPTY && element.value > 0 && !element.currency,
        None => false,
    }
}

fn is_refinable(cell: Option<ElementId>, elements: &ElementTable, input: ElementId) -> (r: bool)
    ensures
        r == refinable_spec(cell, elements@, input),
{
    let id = match cell {
        Some(id) => id,
        None => {
            return false;
        },
    };
    if id != input {
        return false;
    }
    match elements.get(id) {
        Some(element) => element.refined_into != EMPTY,
        None => false,
    }
}

fn acts_this_tick(definition: &EntityType, tick: u64) -> (r: bool)
    ensures
        r == acts_spec(definition@, tick),
{
    definition.interval <= 1 || tick % (definition.interval as u64) == 0
}

impl Entity {
    /// The machine cannot do its job right now. Not a failure state: back-pressure is
    /// physical, and a machine that has backed up into its own input, or is being fed
    /// nothing at all, is worth showing.
    #[verifier::loop_isolation(false)]
    pub fn is_blocked<F: CellField>(&self, definition: &EntityType, field: &F, elements: &ElementTable) -> (r: bool)
        requires
            works_in_plane(*self, definition@),
            field.field_inv(),
        ensures
            r == blocked_spec(*self, definition@, *field, elements@),
    {
        match definition.behaviour {
            Behaviour::Emit => {
                let mouth = self.mouth();
                let left: i64 = self.tile_x as i64 * 9 + definition.mouth_offset as i64;
                let mut o: u32 = 0;
                while o < definition.mouth_width
                    invariant
                        o <= definition.mouth_width,
                        field.field_inv(),
                        mouth_fits(*self),
                        mouth == mouth_spec(*self),
                        left == self.tile_x * 9 + definition.mouth_offset,
                        forall|k: int| 0 <= k < o ==> #[trigger] mouth_cell(*self, definition@, *field, k) != Some(EMPTY),
                    decreases definition.mouth_width - o,
                {
                    let x: i64 = left + o as i64;
                    if (i32::MIN as i64) <= x && x <= (i32::MAX as i64) {
                        if field.get(x as i32, mouth) == Some(EMPTY) {
                            assert(mouth_cell(*self, definition@, *field, o as int) == Some(EMPTY));
                            assert(!emit_blocked(*self, definition@, *field));
                            assert(definition.behaviour == Behaviour::Emit);
                            assert(blocked_spec(*self, definition@, *field, elements@) == emit_blocked(*self, definition@, *field));
                            return false;
                        }
                    }
                    assert(mouth_cell(*self, definition@, *field, o as int) != Some(EMPTY));
                    o = o + 1;
                }
                true
            },
            Behaviour::Press => {
                let (x0, y0, x1, y1) = self.body();
                let mut y: i32 = y0;
                while y <= y1
                    invariant
                        y0 <= y <= y1 + 1,
                        field.field_inv(),
                        (x0 as int, y0 as int, x1 as int, y1 as int) == body_spec(*self),
                        fits_spec(*self),
                        forall|i: i32, j: i32| x0 <= i <= x1 && y0 <= j < y ==> !pressable_spec(#[trigger] field.cell(i, j), elements@),
                    decreases y1 - y + 1,
                {
                    let mut x: i32 = x0;
                    while x <= x1
                        invariant
                            x0 <= x <= x1 + 1,
                            y0 <= y <= y1,
                            field.field_inv(),
                            (x0 as int, y0 as int, x1 as int, y1 as int) == body_spec(*self),
                            fits_spec(*self),
                            forall|i: i32, j: i32|
                                x0 <= i <= x1 && (y0 <= j < y || (j == y && i < x)) ==> !pressable_spec(#[trigger] field.cell(i, j), elements@),
                        decreases x1 - x + 1,
                    {
                        if is_pressable(field.get(x, y), elements) {
                            assert(in_area(body_spec(*self), x as int, y as int));
                            assert(!press_blocked(*self, *field, elements@));
                            assert(blocked_spec(*self, definition@, *field, elements@) == press_blocked(*self, *field, elements@));
                            return false;
                        }
                        x = x + 1;
                    }
                    y = y + 1;
                }
                true
            },
            Behaviour::Refine => {
                let (ax0, ay0, ax1, ay1) = self.reach_area(definition.reach);
                let mut y: i32 = ay0;
                while y <= ay1
                    invariant
                        ay0 <= y <= ay1 + 1,
                        field.field_inv(),
                        (ax0 as int, ay0 as int, ax1 as int, ay1 as int) == reach_area_spec(*self, definition.reach),
                        reach_fits(*self, definition.reach),
                        forall|i: i32, j: i32|
                            ax0 <= i <= ax1 && ay0 <= j < y ==> !refinable_spec(#[trigger] field.cell(i, j), elements@, definition.input),
                    decreases ay1 - y + 1,
                {
                    let mut x: i32 = ax0;
                    while x <= ax1
                        invariant
                            ax0 <= x <= ax1 + 1,
                            ay0 <= y <= ay1,
                            field.field_inv(),
                            (ax0 as int, ay0 as int, ax1 as int, ay1 as int) == reach_area_spec(*self, definition.reach),
                            reach_fits(*self, definition.reach),
                            forall|i: i32, j: i32|
                                ax0 <= i <= ax1 && (ay0 <= j < y || (j == y && i < x)) ==> !refinable_spec(
                                    #[trigger] field.cell(i, j),
                                    elements@,
                                    definition.input,
                                ),
                        decreases ax1 - x + 1,
                    {
                        if is_refinable(field.get(x, y), elements, definition.input) {
                            assert(in_area(reach_area_spec(*self, definition.reach), x as int, y as int));
                            assert(!refine_blocked(*self, definition@, *field, elements@));
                            assert(blocked_spec(*self, definition@, *field, elements@) == refine_blocked(*self, definition@, *field, elements@));
                            return false;
                        }
                        x = x + 1;
                    }
                    y = y + 1;
                }
                true
            },
            // A vault is a place, not a process. It cannot be blocked.
            Behaviour::Store => false,
            // Blocked means jammed: cargo is resting on it that cannot advance.
            Behaviour::Belt => {
                let (x0, y0, x1, y1) = self.body();
                let carry_y: i32 = y0 - 1;
                let direction: i64 = self.direction as i64;
                let mut x: i32 = x0;
                while x <= x1
                    invariant
                        x0 <= x <= x1 + 1,
                        field.field_inv(),
                        (x0 as int, y0 as int, x1 as int, y1 as int) == body_spec(*self),
                        fits_spec(*self),
                        carry_y == y0 - 1,
                        direction == self.direction,
                        forall|i: i32| x0 <= i < x ==> !#[trigger] jammed_at(*field, i, carry_y, self.direction),
                    decreases x1 - x + 1,
                {
                    let here = field.get(x, carry_y);
                    let next_x: i32 = (x as i64 + direction) as i32;
                    if here.is_some() && here != Some(EMPTY) && field.get(next_x, carry_y) != Some(EMPTY) {
                        assert(jammed_at(*field, x, carry_y, self.direction));
                        assert(carry_y == (body_spec(*self).1 - 1) as i32);
                        assert(jammed_at(*field, x, (body_spec(*self).1 - 1) as i32, self.direction));
                        assert(belt_jammed(*self, *field));
                        assert(blocked_spec(*self, definition@, *field, elements@) == belt_jammed(*self, *field));
                        return true;
                    }
                    assert(!jammed_at(*field, x, carry_y, self.direction));
                    x = x + 1;
                }
                false
            },
            // Blocked means idle: no fuel anywhere in the body to burn.
            Behaviour::Heater => {
                let (x0, y0, x1, y1) = self.body();
                let mut y: i32 = y0;
                while y <= y1
                    invariant
                        y0 <= y <= y1 + 1,
                        field.field_inv(),
                        (x0 as int, y0 as int, x1 as int, y1 as int) == body_spec(*self),
                        fits_spec(*self),
                        forall|i: i32, j: i32| x0 <= i <= x1 && y0 <= j < y ==> #[trigger] field.cell(i, j) != Some(definition.input),
                    decreases y1 - y + 1,
                {
                    let mut x: i32 = x0;
                    while x <= x1
                        invariant
                            x0 <= x <= x1 + 1,
                            y0 <= y <= y1,
                            field.field_inv(),
                            (x0 as int, y0 as int, x1 as int, y1 as int) == body_spec(*self),
                            fits_spec(*self),
                            forall|i: i32, j: i32|
                                x0 <= i <= x1 && (y0 <= j < y || (j == y && i < x)) ==> #[trigger] field.cell(i, j) != Some(definition.input),
                        decreases x1 - x + 1,
                    {
                        if field.get(x, y) == Some(definition.input) {
                            assert(in_area(body_spec(*self), x as int, y as int));
                            assert(!heater_idle(*self, definition@, *field));
                            assert(blocked_spec(*self, definition@, *field, elements@) == heater_idle(*self, definition@, *field));
                            return false;
                        }
                        x = x + 1;
                    }
                    y = y + 1;
                }
                true
            },
        }
    }
}

/// What the machine pass reads and writes: cells and temperatures, the machines, and
/// the nuggets pressed so far this tick.
pub struct TickState {
    pub model: HeatModel,
    pub entities: Seq<Entity>,
    pub minted: int,
}

/// The definition of a machine kind, if the table has one.
pub open spec fn type_spec(types: Seq<Option<EntityTypeView>>, kind: EntityKind) -> Option<EntityTypeView> {
    if (kind as int) < types.len() {
        types[kind as int]
    } else {
        None
    }
}

/// Machine `i` acts, if its kind is defined, it is enabled, its interval comes round
/// and what it computes lies in the plane: by its behaviour. Vaults and belts do nothing here.
pub open spec fn machine_visit(s: TickState, types: Seq<Option<EntityTypeView>>, els: Seq<Option<ElementView>>, seed: u64, now: u64, i: int) -> TickState {
    let e = s.entities[i];
    match type_spec(types, e.kind) {
        None => s,
        Some(def) => if !e.enabled || !acts_spec(def, now) || !works_in_plane(e, def) {
            s
        } else {
            match def.behaviour {
                Behaviour::Emit => TickState { model: emit_spec(s.model, e, def, els, seed, now, i), ..s },
                Behaviour::Press => {
                    let p = press_spec(s.model, e, def, els);
                    TickState {
                        model: p.model,
                        entities: s.entities.update(i, Entity { bank: p.bank, ..e }),
                        minted: if s.minted + p.minted > u64::MAX { u64::MAX as int } else { s.minted + p.minted },
                    }
                },
                Behaviour::Refine => TickState { model: refine_spec(s.model, e, def, els), ..s },
                Behaviour::Heater => TickState { model: heater_spec(s.model, e, def, els), ..s },
                Behaviour::Store | Behaviour::Belt => s,
            }
        },
    }
}

/// Machines `i..` in placement order.
pub open spec fn machines_from(s: TickState, types: Seq<Option<EntityTypeView>>, els: Seq<Option<ElementView>>, seed: u64, now: u64, i: int) -> TickState
    decreases s.entities.len() - i,
{
    if i < 0 || i >= s.entities.len() {
        s
    } else {
        let next = machine_visit(s, types, els, seed, now, i);
        if next.entities.len() == s.entities.len() {
            machines_from(next, types, els, seed, now, i + 1)
        } else {
            next
        }
    }
}

/// The whole machine pass: belts first, then every machine in placement order.
pub open spec fn tick_spec(m: HeatModel, entities: Seq<Entity>, types: Seq<Option<EntityTypeView>>, els: Seq<Option<ElementView>>, seed: u64, now: u64) -> TickState {
    let conveyed = convey_spec(m, entities, types, now);
    machines_from(TickState { model: conveyed, entities, minted: 0 }, types, els, seed, now, 0)
}

/// Runs every machine, in placement order, and returns how many nuggets were pressed
/// this tick. Belts run first, as their own pass, downstream tile first.
///
/// Machines only ever change their own `bank`; a disabled machine, or one between
/// actions, does nothing.
pub fn tick<F: CellField>(
    field: &mut F,
    entities: &mut Vec<Entity>,
    types: &EntityTable,
    elements: &ElementTable,
    seed: u64,
    now: u64,
) -> (minted: u64)
    requires
        old(field).field_inv(),
    ensures
        final(field).field_inv(),
        ({
            let r = tick_spec(model_of(*old(field)), old(entities)@, types@, elements@, seed, now);
            &&& agrees(*final(field), r.model)
            &&& final(entities)@ == r.entities
            &&& minted == r.minted
        }),
        final(entities)@.len() == old(entities)@.len(),
        forall|i: int|
            0 <= i < old(entities)@.len() ==> (Entity { bank: old(entities)@[i].bank, ..#[trigger] final(entities)@[i] })
                == old(entities)@[i],
        shape_kept(*old(field), *final(field)),
        changes_reported(*old(field), *final(field)),
        wake_kept(*old(field), *final(field)),
{
    let ghost result = tick_spec(model_of(*old(field)), old(entities)@, types@, elements@, seed, now);
    convey(field, entities, types, now, Ghost(model_of(*field)));
    let ghost mut s = TickState { model: convey_spec(model_of(*old(field)), old(entities)@, types@, now), entities: entities@, minted: 0 };
    let mut minted: u64 = 0;
    let mut index: usize = 0;
    while index < entities.len()
        invariant
            shape_kept(*old(field), *field),
            changes_reported(*old(field), *field),
            wake_kept(*old(field), *field),
            index <= entities@.len(),
            field.field_inv(),
            entities@.len() == old(entities)@.len(),
            forall|i: int|
                0 <= i < old(entities)@.len() ==> (Entity { bank: old(entities)@[i].bank, ..#[trigger] entities@[i] })
                    == old(entities)@[i],
            agrees(*field, s.model),
            s.entities == entities@,
            s.minted == minted,
            result == machines_from(s, types@, elements@, seed, now, index as int),
        decreases entities@.len() - index,
    {
        let ghost next = machine_visit(s, types@, elements@, seed, now, index as int);
        let mut entity = entities[index];
        let definition = match types.get(entity.kind) {
            Some(d) => d,
            None => {
                proof {
                    s = next;
                }
                index = index + 1;
                continue;
            },
        };
        // A disabled machine does nothing, whatever it is. Physics carries on around it.
        if !entity.enabled || !acts_this_tick(definition, now) || !entity.works_in_plane(definition) {
            proof {
                s = next;
            }
            index = index + 1;
            continue;
        }
        match definition.behaviour {
            Behaviour::Emit => emit(field, &entity, definition, elements, seed, now, index, Ghost(s.model)),
            Behaviour::Press => {
                let made = press(field, &mut entity, definition, elements, Ghost(s.model));
                minted = if minted > u64::MAX - made {
                    u64::MAX
                } else {
                    minted + made
                };
            },
            Behaviour::Refine => refine(field, &entity, definition, elements, Ghost(s.model)),
            Behaviour::Heater => heater(field, &entity, definition, elements, Ghost(s.model)),
            // A vault holds what falls into it and does nothing else; a belt was
            // already handled above.
            Behaviour::Store | Behaviour::Belt => {},
        }
        entities.set(index, entity);
        proof {
            assert(entities@ =~= next.entities);
            s = next;
        }
        index = index + 1;
    }
    minted
}

/// `a` sorts before `b`: by key, then by position in placement order.
pub open spec fn lex_lt(a: (i64, usize), b: (i64, usize)) -> bool {
    a.0 < b.0 || (a.0 == b.0 && a.1 < b.1)
}

pub open spec fn lex_sorted(s: Seq<(i64, usize)>) -> bool {
    forall|i: int, j: int| 0 <= i < j < s.len() ==> lex_lt(#[trigger] s[i], #[trigger] s[j])
}

/// Keys paired with placement indices, in placement order, sorted by key with ties
/// kept in placement order: the one arrangement of them that is strictly ascending by
/// key and then index.
pub open spec fn belt_order(pairs: Seq<(i64, usize)>) -> Seq<(i64, usize)> {
    choose|s: Seq<(i64, usize)>| s.to_multiset() == pairs.to_multiset() && lex_sorted(s)
}

/// Only one arrangement of a collection is strictly ascending.
proof fn lemma_lex_unique(a: Seq<(i64, usize)>, b: Seq<(i64, usize)>)
    requires
        lex_sorted(a),
        lex_sorted(b),
        a.to_multiset() == b.to_multiset(),
    ensures
        a == b,
    decreases a.len(),
{
    broadcast use vstd::seq_lib::group_to_multiset_ensures;

    assert(a.len() == b.len()) by {
        vstd::seq_lib::to_multiset_len(a);
        vstd::seq_lib::to_multiset_len(b);
    }
    if a.len() > 0 {
        assert(a.to_multiset().count(a[0]) > 0) by {
            assert(a.contains(a[0]));
        }
        assert(b.contains(a[0]));
        let j = choose|j: int| 0 <= j < b.len() && b[j] == a[0];
        assert(b.to_multiset().count(b[0]) > 0) by {
            assert(b.contains(b[0]));
        }
        assert(a.contains(b[0]));
        let i = choose|i: int| 0 <= i < a.len() && a[i] == b[0];
        if a[0] != b[0] {
            assert(i != 0);
            assert(j != 0);
            assert(lex_lt(a[0], a[i]));
            assert(lex_lt(b[0], b[j]));
        }
        assert(a[0] == b[0]);
        let ra = a.remove(0);
        let rb = b.remove(0);
        assert(ra.to_multiset() == rb.to_multiset());
        assert(lex_sorted(ra)) by {
            assert forall|p: int, q: int| 0 <= p < q < ra.len() implies lex_lt(#[trigger] ra[p], #[trigger] ra[q]) by {
                assert(ra[p] == a[p + 1]);
                assert(ra[q] == a[q + 1]);
            }
        }
        assert(lex_sorted(rb)) by {
            assert forall|p: int, q: int| 0 <= p < q < rb.len() implies lex_lt(#[trigger] rb[p], #[trigger] rb[q]) by {
                assert(rb[p] == b[p + 1]);
                assert(rb[q] == b[q + 1]);
            }
        }
        lemma_lex_unique(ra, rb);
        assert forall|k: int| 0 <= k < a.len() implies a[k] == b[k] by {
            if k > 0 {
                assert(a[k] == ra[k - 1]);
                assert(b[k] == rb[k - 1]);
            }
        }
        assert(a =~= b);
    }
}

/// Belt indices with their sort keys, sorted by key, ties kept in placement order.
fn sorted_by_key(pairs: &Vec<(i64, usize)>) -> (r: Vec<(i64, usize)>)
    requires
        forall|i: int, j: int| 0 <= i < j < pairs@.len() ==> (#[trigger] pairs@[i]).1 < (#[trigger] pairs@[j]).1,
    ensures
        r@.to_multiset() == pairs@.to_multiset(),
        lex_sorted(r@),
        r@ == belt_order(pairs@),
{
    broadcast use vstd::seq_lib::group_to_multiset_ensures;

    let mut out: Vec<(i64, usize)> = Vec::new();
    let mut k: usize = 0;
    while k < pairs.len()
        invariant
            k <= pairs@.len(),
            forall|i: int, j: int| 0 <= i < j < pairs@.len() ==> (#[trigger] pairs@[i]).1 < (#[trigger] pairs@[j]).1,
            out@.to_multiset() == pairs@.subrange(0, k as int).to_multiset(),
            lex_sorted(out@),
        decreases pairs@.len() - k,
    {
        let item = pairs[k];
        // Every pair already placed came earlier, so has a smaller index.
        assert forall|i: int| 0 <= i < out@.len() implies (#[trigger] out@[i]).1 < item.1 by {
            assert(out@.contains(out@[i]));
            assert(out@.to_multiset().count(out@[i]) > 0);
            assert(pairs@.subrange(0, k as int).contains(out@[i]));
            let t = choose|t: int| 0 <= t < k && pairs@.subrange(0, k as int)[t] == out@[i];
            assert(pairs@[t] == out@[i]);
        }
        // After every key not greater than this one, so equal keys keep their order.
        let mut at: usize = 0;
        while at < out.len() && out[at].0 <= item.0
            invariant
                at <= out@.len(),
                forall|i: int| 0 <= i < at ==> (#[trigger] out@[i]).0 <= item.0,
            decreases out@.len() - at,
        {
            at = at + 1;
        }
        let ghost before = out@;
        out.insert(at, item);
        proof {
            assert(pairs@.subrange(0, k + 1) =~= pairs@.subrange(0, k as int).push(item));
            assert forall|i: int, j: int| 0 <= i < j < out@.len() implies lex_lt(#[trigger] out@[i], #[trigger] out@[j]) by {
                if at < before.len() {
                    assert(before[at as int].0 > item.0);
                }
                if j < at {
                } else if j == at {
                    assert(out@[i] == before[i]);
                } else if i < at {
                    assert(out@[j] == before[j - 1]);
                    if i < at && j - 1 >= at && at < before.len() {
                        assert(lex_lt(before[at as int], before[j - 1]) || j - 1 == at);
                    }
                } else if i == at {
                    assert(out@[j] == before[j - 1]);
                    assert(lex_lt(before[at as int], before[j - 1]) || j - 1 == at);
                } else {
                    assert(out@[i] == before[i - 1]);
                    assert(out@[j] == before[j - 1]);
                }
            }
        }
        k = k + 1;
    }
    proof {
        assert(pairs@.subrange(0, pairs@.len() as int) =~= pairs@);
        let c = belt_order(pairs@);
        assert(out@.to_multiset() == pairs@.to_multiset() && lex_sorted(out@));
        assert(c.to_multiset() == pairs@.to_multiset() && lex_sorted(c));
        lemma_lex_unique(out@, c);
    }
    out
}

/// Runs every belt and filter for this tick, downstream tile first.
///
/// A belt shoves cargo across its own boundary into whatever tile is next, and if that
/// tile also conveys this tick, running it after would shove the same cargo twice.
/// Sorting by position times the negated direction puts the furthest-downstream tile
/// first regardless of which way it faces.
fn convey<F: CellField>(field: &mut F, entities: &Vec<Entity>, types: &EntityTable, tick: u64, Ghost(m0): Ghost<HeatModel>)
    requires
        old(field).field_inv(),
        agrees(*old(field), m0),
    ensures
        final(field).field_inv(),
        same_census(*old(field), *final(field)),
        agrees(*final(field), convey_spec(m0, entities@, types@, tick)),
        shape_kept(*old(field), *final(field)),
        changes_reported(*old(field), *final(field)),
        wake_kept(*old(field), *final(field)),
{
    let mut belts: Vec<(i64, usize)> = Vec::new();
    let mut index: usize = 0;
    while index < entities.len()
        invariant
            shape_kept(*old(field), *field),
            changes_reported(*old(field), *field),
            wake_kept(*old(field), *field),
            index <= entities@.len(),
            belts@ == belt_pairs(entities@, types@, tick, index as int),
            forall|i: int| 0 <= i < belts@.len() ==> (#[trigger] belts@[i]).1 < index,
            forall|i: int, j: int| 0 <= i < j < belts@.len() ==> (#[trigger] belts@[i]).1 < (#[trigger] belts@[j]).1,
        decreases entities@.len() - index,
    {
        let entity = entities[index];
        if entity.enabled {
            match types.get(entity.kind) {
                Some(definition) => {
                    if definition.behaviour == Behaviour::Belt && acts_this_tick(definition, tick) {
                        let scaled: i64 = entity.tile_x as i64 * 9;
                        let negated: i64 = -(entity.direction as i64);
                        proof {
                            assert(-0x1_0000_0000_0000 <= scaled * negated <= 0x1_0000_0000_0000) by (nonlinear_arith)
                                requires
                                    -0x5_0000_0000 <= scaled <= 0x5_0000_0000,
                                    -128 <= negated <= 128,
                            ;
                        }
                        let key: i64 = scaled * negated;
                        belts.push((key, index));
                    }
                },
                None => {},
            }
        }
        index = index + 1;
    }
    let order = sorted_by_key(&belts);
    let ghost result = convey_spec(m0, entities@, types@, tick);
    let ghost mut m = m0;
    let mut k: usize = 0;
    while k < order.len()
        invariant
            shape_kept(*old(field), *field),
            changes_reported(*old(field), *field),
            wake_kept(*old(field), *field),
            k <= order@.len(),
            field.field_inv(),
            same_census(*old(field), *field),
            order@.to_multiset() == belts@.to_multiset(),
            forall|i: int| 0 <= i < belts@.len() ==> (#[trigger] belts@[i]).1 < entities@.len(),
            agrees(*field, m),
            result == convey_fold(m, entities@, order@, k as int),
        decreases order@.len() - k,
    {
        broadcast use vstd::seq_lib::group_to_multiset_ensures;

        let (_, index) = order[k];
        proof {
            assert(order@.contains(order@[k as int]));
            assert(order@.to_multiset().count(order@[k as int]) > 0);
            assert(belts@.contains(order@[k as int]));
        }
        let entity = entities[index];
        if entity.fits() {
            convey_one(field, &entity, Ghost(m));
            proof {
                m = convey_one_spec(m, entity);
            }
        }
        k = k + 1;
    }
}

/// Whether a machine conveys this tick: an enabled belt whose interval comes round.
pub open spec fn belt_now(e: Entity, types: Seq<Option<EntityTypeView>>, tick: u64) -> bool {
    e.enabled && (e.kind as int) < types.len() && types[e.kind as int] is Some && types[e.kind as int].unwrap().behaviour
        == Behaviour::Belt && (types[e.kind as int].unwrap().interval <= 1 || (tick as int) % (types[
        e.kind as int].unwrap().interval as int) == 0)
}

/// Which way down a belt runs, as a sort key: its left edge times its negated
/// direction, so the furthest-downstream tile sorts first whichever way it faces.
pub open spec fn belt_key(e: Entity) -> i64 {
    (e.tile_x * 9 * -(e.direction as int)) as i64
}

/// The conveying machines among the first `n`, with their keys, in placement order.
pub open spec fn belt_pairs(entities: Seq<Entity>, types: Seq<Option<EntityTypeView>>, tick: u64, n: int) -> Seq<(i64, usize)>
    decreases n,
{
    if n <= 0 || n > entities.len() {
        Seq::empty()
    } else if belt_now(entities[n - 1], types, tick) {
        belt_pairs(entities, types, tick, n - 1).push((belt_key(entities[n - 1]), (n - 1) as usize))
    } else {
        belt_pairs(entities, types, tick, n - 1)
    }
}

/// Belts `k..` of `order` run one after another; one that does not fit in the plane is
/// left out.
pub open spec fn convey_fold(m: HeatModel, entities: Seq<Entity>, order: Seq<(i64, usize)>, k: int) -> HeatModel
    decreases order.len() - k,
{
    if k < 0 || k >= order.len() {
        m
    } else {
        let e = entities[order[k].1 as int];
        convey_fold(if fits_spec(e) { convey_one_spec(m, e) } else { m }, entities, order, k + 1)
    }
}

/// The belt pass: every conveying machine, furthest downstream first.
pub open spec fn convey_spec(m: HeatModel, entities: Seq<Entity>, types: Seq<Option<EntityTypeView>>, tick: u64) -> HeatModel {
    convey_fold(m, entities, belt_order(belt_pairs(entities, types, tick, entities.len() as int)), 0)
}

/// Shoves whatever rests on top of one belt or filter tile one cell downstream, or, for
/// a filter, drops cargo matching `entity.element` straight down through the tile's own
/// body instead. Walked from the downstream column backward, so a short line of cargo
/// cannot cascade several cells in one tick.
///
/// Either way it only moves matter: nothing is created or destroyed.
fn convey_one<F: CellField>(field: &mut F, entity: &Entity, Ghost(m0): Ghost<HeatModel>)
    requires
        old(field).field_inv(),
        fits_spec(*entity),
        agrees(*old(field), m0),
    ensures
        final(field).field_inv(),
        same_census(*old(field), *final(field)),
        agrees(*final(field), convey_one_spec(m0, *entity)),
        shape_kept(*old(field), *final(field)),
        changes_reported(*old(field), *final(field)),
        wake_kept(*old(field), *final(field)),
{
    let (x0, y0, x1, _) = entity.body();
    let carry_y: i32 = y0 - 1;
    let direction: i64 = entity.direction as i64;
    let drop_y: i32 = entity.mouth();
    let count: i64 = x1 as i64 - x0 as i64 + 1;
    let ghost result = convey_one_spec(m0, *entity);
    let ghost mut m = m0;
    let mut step: i64 = 0;
    while step < count
        invariant
            shape_kept(*old(field), *field),
            changes_reported(*old(field), *field),
            wake_kept(*old(field), *field),
            0 <= step,
            count == x1 - x0 + 1,
            field.field_inv(),
            same_census(*old(field), *field),
            carry_y == y0 - 1,
            drop_y == mouth_spec(*entity),
            direction == entity.direction,
            (x0 as int, y0 as int, x1 as int) == (body_spec(*entity).0, body_spec(*entity).1, body_spec(*entity).2),
            fits_spec(*entity),
            agrees(*field, m),
            result == belt_cols(m, *entity, step as int, count as int),
        decreases count - step,
    {
        let x: i32 = if direction >= 0 {
            (x1 as i64 - step) as i32
        } else {
            (x0 as i64 + step) as i32
        };
        let ghost next = belt_visit(m, *entity, x);
        proof {
            assert(belt_cols(m, *entity, step as int, count as int) == belt_cols(next, *entity, step + 1, count as int));
        }
        step = step + 1;
        let id = match field.get(x, carry_y) {
            Some(id) => id,
            None => {
                proof {
                    m = next;
                }
                continue;
            },
        };
        if id == EMPTY {
            proof {
                m = next;
            }
            continue;
        }
        if entity.element != EMPTY && id == entity.element {
            if field.get(x, drop_y) == Some(EMPTY) {
                let ghost before = *field;
                write_matter(field, x, carry_y, EMPTY, Ghost(m));
                let ghost cleared = *field;
                assert(cleared.cell(x, drop_y) == before.cell(x, drop_y));
                write_matter(field, x, drop_y, id, Ghost(write_cell(m, x, carry_y, EMPTY)));
                proof {
                    assert forall|k: ElementId| (k != EMPTY || F::shape_fixed()) implies #[trigger] field.census(k) == before.census(k) by {
                        assert(cleared.census(k) == before.census(k) - (if id == k { 1int } else { 0 }) + (if k == EMPTY { 1int } else { 0 }));
                    }
                }
            }
            proof {
                m = next;
            }
            continue;
        }
        let target: i64 = x as i64 + direction;
        if (i32::MIN as i64) <= target && target <= (i32::MAX as i64) {
            let target_x: i32 = target as i32;
            if field.get(target_x, carry_y) == Some(EMPTY) {
                swap_with(field, x, carry_y, target_x, carry_y, Ghost(m));
            }
        }
        proof {
            m = next;
        }
    }
}

/// Exchanges two cells that exist, temperatures included, and reports both.
fn swap_with<F: CellField>(field: &mut F, ax: i32, ay: i32, bx: i32, by: i32, Ghost(m): Ghost<HeatModel>)
    requires
        old(field).field_inv(),
        agrees(*old(field), m),
        old(field).cell(ax, ay) is Some,
        old(field).cell(bx, by) is Some,
    ensures
        final(field).field_inv(),
        agrees(*final(field), swap_model(m, ax, ay, bx, by)),
        same_census(*old(field), *final(field)),
        shape_kept(*old(field), *final(field)),
        changes_reported(*old(field), *final(field)),
        wake_kept(*old(field), *final(field)),
{
    let ghost before = *field;
    field.swap(ax, ay, bx, by);
    let ghost s1 = *field;
    field.mark_active(ax, ay);
    let ghost s2 = *field;
    field.mark_active(bx, by);
    proof {
        let r = swap_model(m, ax, ay, bx, by);
        assert forall|i: i32, j: i32| #[trigger] field.cell(i, j) == (r.cell)(i, j) by {
            assert(field.cell(i, j) == s2.cell(i, j));
            assert(s2.cell(i, j) == s1.cell(i, j));
            if !(i == ax && j == ay) && !(i == bx && j == by) {
                assert(s1.cell(i, j) == before.cell(i, j));
            }
        }
        assert forall|i: i32, j: i32| #[trigger] field.heat_at(i, j) == (r.heat)(i, j) by {
            assert(field.cell(i, j) == s2.cell(i, j));
            assert(s2.cell(i, j) == s1.cell(i, j));
            if !(i == ax && j == ay) && !(i == bx && j == by) {
                assert(s1.cell(i, j) == before.cell(i, j));
            }
        }
    }
}

/// Two positions' cells and temperatures exchanged.
pub open spec fn swap_model(m: HeatModel, ax: i32, ay: i32, bx: i32, by: i32) -> HeatModel {
    HeatModel {
        cell: |i: i32, j: i32|
            if i == ax && j == ay {
                (m.cell)(bx, by)
            } else if i == bx && j == by {
                (m.cell)(ax, ay)
            } else {
                (m.cell)(i, j)
            },
        heat: |i: i32, j: i32|
            if i == ax && j == ay {
                (m.heat)(bx, by)
            } else if i == bx && j == by {
                (m.heat)(ax, ay)
            } else {
                (m.heat)(i, j)
            },
    }
}

/// One column of the row resting on a belt tile. Cargo a filter lets through drops
/// through the tile to the cell under it, if that is empty; other cargo moves one cell
/// downstream, if that is empty.
pub open spec fn belt_visit(m: HeatModel, e: Entity, x: i32) -> HeatModel {
    let carry = (body_spec(e).1 - 1) as i32;
    let drop = mouth_spec(e) as i32;
    match (m.cell)(x, carry) {
        None => m,
        Some(id) => if id == EMPTY {
            m
        } else if e.element != EMPTY && id == e.element {
            if (m.cell)(x, drop) == Some(EMPTY) {
                write_cell(write_cell(m, x, carry, EMPTY), x, drop, id)
            } else {
                m
            }
        } else {
            let target = x + e.direction;
            if i32::MIN <= target <= i32::MAX && (m.cell)(target as i32, carry) == Some(EMPTY) {
                swap_model(m, x, carry, target as i32, carry)
            } else {
                m
            }
        },
    }
}

/// Columns from `step` on, walked from the downstream end back, so a short line of
/// cargo inside one tile cannot cascade several cells in one tick.
pub open spec fn belt_cols(m: HeatModel, e: Entity, step: int, count: int) -> HeatModel
    decreases count - step,
{
    if step >= count {
        m
    } else {
        let b = body_spec(e);
        let x = if e.direction >= 0 { b.2 - step } else { b.0 + step };
        belt_cols(belt_visit(m, e, x as i32), e, step + 1, count)
    }
}

/// One belt tile's action on the row resting on it.
pub open spec fn convey_one_spec(m: HeatModel, e: Entity) -> HeatModel {
    let b = body_spec(e);
    belt_cols(m, e, 0, b.2 - b.0 + 1)
}

/// The salt for grain `grain` of the machine at position `index`, wrapping.
pub open spec fn machine_salt(index: int, grain: int) -> u32 {
    (((index % 0x1_0000_0000) * 31 + grain + 101) % 0x1_0000_0000) as u32
}

fn salt_for(index: usize, grain: u32) -> (r: u32)
    ensures
        r == machine_salt(index as int, grain as int),
{
    let low: u64 = (index as u64) % 0x1_0000_0000;
    ((low * 31 + grain as u64 + 101) % 0x1_0000_0000) as u32
}

/// Introduces matter at the mouth. A machine cannot force material into an occupied
/// cell, so a clogged factory starves itself, and emission never touches matter.
fn emit<F: CellField>(field: &mut F, entity: &Entity, definition: &EntityType, elements: &ElementTable, seed: u64, tick: u64, index: usize, Ghost(m0): Ghost<HeatModel>)
    requires
        old(field).field_inv(),
        agrees(*old(field), m0),
        mouth_fits(*entity),
    ensures
        final(field).field_inv(),
        agrees(*final(field), emit_spec(m0, *entity, definition@, elements@, seed, tick, index as int)),
        forall|x: i32, y: i32|
            #[trigger] final(field).cell(x, y) != old(field).cell(x, y) ==> old(field).cell(x, y) == Some(EMPTY)
                && final(field).cell(x, y) == Some(entity.element) && y == mouth_spec(*entity),
        shape_kept(*old(field), *final(field)),
        changes_reported(*old(field), *final(field)),
        wake_kept(*old(field), *final(field)),
{
    let element = match elements.get(entity.element) {
        Some(e) => e,
        None => {
            return;
        },
    };
    // Emitters emit matter that moves. A solid would appear one cell at a time and sit
    // there, which is not emission but drawing.
    if entity.element == EMPTY || element.state == State::Solid {
        return;
    }
    let left: i64 = entity.tile_x as i64 * 9 + definition.mouth_offset as i64;
    if left > i32::MAX as i64 {
        return;
    }
    let left32: i32 = left as i32;
    let mouth: i32 = entity.mouth();
    let span: u32 = definition.mouth_width;
    let rate = entity.effective_rate(definition);
    let ghost result = emit_spec(m0, *entity, definition@, elements@, seed, tick, index as int);
    let ghost mut m = m0;
    let mut grain: u32 = 0;
    while grain < rate
        invariant
            shape_kept(*old(field), *field),
            changes_reported(*old(field), *field),
            wake_kept(*old(field), *field),
            grain <= rate,
            rate == entity.effective_rate_spec(definition@),
            field.field_inv(),
            mouth == mouth_spec(*entity),
            left == entity.tile_x * 9 + definition.mouth_offset,
            left <= i32::MAX,
            left32 == left,
            span == definition.mouth_width,
            agrees(*field, m),
            result == emit_grains(m, *entity, definition@, seed, tick, index as int, left as int, grain as int, rate as int),
            forall|x: i32, y: i32|
                #[trigger] field.cell(x, y) != old(field).cell(x, y) ==> old(field).cell(x, y) == Some(EMPTY)
                    && field.cell(x, y) == Some(entity.element) && y == mouth_spec(*entity),
        decreases rate - grain,
    {
        // Salted by machine and by grain, so two emitters do not fire in lockstep.
        let salt = salt_for(index, grain);
        let offset = rng::below(seed, tick, left32, mouth, salt, span);
        let target: i64 = left + offset as i64;
        if target <= i32::MAX as i64 {
            let x: i32 = target as i32;
            fill_with(field, x, mouth, entity.element, Ghost(m));
            proof {
                m = fill_spec(m, x, mouth, entity.element);
            }
        }
        grain = grain + 1;
    }
}

/// Writes `id` into the cell if, and only if, it is empty, and reports the write.
pub fn fill_if_empty<F: CellField>(field: &mut F, x: i32, y: i32, id: ElementId)
    requires
        old(field).field_inv(),
    ensures
        final(field).field_inv(),
        agrees(*final(field), fill_spec(model_of(*old(field)), x, y, id)),
        forall|a: i32, b: i32|
            #[trigger] final(field).cell(a, b) != old(field).cell(a, b) ==> a == x && b == y && old(field).cell(a, b) == Some(EMPTY)
                && final(field).cell(a, b) == Some(id),
        old(field).cell(x, y) == Some(EMPTY) ==> final(field).cell(x, y) == Some(id),
        shape_kept(*old(field), *final(field)),
        changes_reported(*old(field), *final(field)),
        wake_kept(*old(field), *final(field)),
{
    fill_with(field, x, y, id, Ghost(model_of(*field)));
}

fn fill_with<F: CellField>(field: &mut F, x: i32, y: i32, id: ElementId, Ghost(m): Ghost<HeatModel>)
    requires
        old(field).field_inv(),
        agrees(*old(field), m),
    ensures
        final(field).field_inv(),
        agrees(*final(field), fill_spec(m, x, y, id)),
        forall|a: i32, b: i32|
            #[trigger] final(field).cell(a, b) != old(field).cell(a, b) ==> a == x && b == y && old(field).cell(a, b) == Some(EMPTY)
                && final(field).cell(a, b) == Some(id),
        old(field).cell(x, y) == Some(EMPTY) ==> final(field).cell(x, y) == Some(id),
        shape_kept(*old(field), *final(field)),
        changes_reported(*old(field), *final(field)),
        wake_kept(*old(field), *final(field)),
{
    if field.get(x, y) == Some(EMPTY) {
        write_matter(field, x, y, id, Ghost(m));
    }
}

/// Matter placed in a cell only if it is empty space.
pub open spec fn fill_spec(m: HeatModel, x: i32, y: i32, id: ElementId) -> HeatModel {
    if (m.cell)(x, y) == Some(EMPTY) {
        write_cell(m, x, y, id)
    } else {
        m
    }
}

/// Grains `g..rate` of one emitter, each dropped at a hashed column of the mouth if
/// that cell is empty.
pub open spec fn emit_grains(m: HeatModel, e: Entity, def: EntityTypeView, seed: u64, tick: u64, index: int, left: int, g: int, rate: int) -> HeatModel
    decreases rate - g,
{
    if g >= rate {
        m
    } else {
        let mouth = mouth_spec(e);
        let offset = rng::below_spec(seed, tick, left as i32, mouth as i32, machine_salt(index, g), def.mouth_width);
        let target = left + offset;
        let next = if target <= i32::MAX {
            fill_spec(m, target as i32, mouth as i32, e.element)
        } else {
            m
        };
        emit_grains(next, e, def, seed, tick, index, left, g + 1, rate)
    }
}

/// An emitter's action. Only matter that moves is emitted: nothing for an empty or
/// undefined element, or for a solid.
pub open spec fn emit_spec(m: HeatModel, e: Entity, def: EntityTypeView, els: Seq<Option<ElementView>>, seed: u64, tick: u64, index: int) -> HeatModel {
    let left = e.tile_x * 9 + def.mouth_offset;
    if e.element == EMPTY || (e.element as int) >= els.len() || els[e.element as int] is None || els[
        e.element as int].unwrap().state == State::Solid || left > i32::MAX {
        m
    } else {
        emit_grains(m, e, def, seed, tick, index, left, 0, e.effective_rate_spec(def) as int)
    }
}

/// The id of the first element, from position `k` of `defined` on, that is money.
pub open spec fn first_currency(defined: Seq<ElementView>, k: int) -> Option<ElementId>
    decreases defined.len() - k,
{
    if k < 0 || k >= defined.len() {
        None
    } else if defined[k].currency {
        Some(defined[k].id)
    } else {
        first_currency(defined, k + 1)
    }
}

/// The element a press mints: the first, in id order, that is money.
pub open spec fn currency_spec(els: Seq<Option<ElementView>>) -> Option<ElementId> {
    first_currency(defined_prefix(els, els.len() as int), 0)
}

/// The first element that is money, if the table has one.
fn currency_of(elements: &ElementTable) -> (r: Option<ElementId>)
    ensures
        r == currency_spec(elements@),
{
    let all = elements.iter();
    let ghost defined = defined_prefix(elements@, elements@.len() as int);
    let mut k: usize = 0;
    while k < all.len()
        invariant
            k <= all@.len(),
            all@.map_values(|e: &Element| e@) == defined,
            currency_spec(elements@) == first_currency(defined, k as int),
        decreases all@.len() - k,
    {
        proof {
            assert(defined[k as int] == all@[k as int]@);
        }
        if all[k].currency {
            return Some(all[k].id);
        }
        k = k + 1;
    }
    None
}

/// A write of `id` into a stored cell: empty space is always at ambient temperature,
/// and matter keeps the temperature already there.
pub open spec fn write_cell(m: HeatModel, x: i32, y: i32, id: ElementId) -> HeatModel {
    if id == EMPTY {
        with_heat(with_cell(m, x, y, EMPTY), x, y, AMBIENT_TEMPERATURE)
    } else {
        with_cell(m, x, y, id)
    }
}

/// Writes `id` into a cell that exists, and reports the change so storage that skips
/// settled regions keeps simulating it.
fn write_matter<F: CellField>(field: &mut F, x: i32, y: i32, id: ElementId, Ghost(m): Ghost<HeatModel>)
    requires
        old(field).field_inv(),
        agrees(*old(field), m),
        old(field).cell(x, y) is Some,
    ensures
        final(field).field_inv(),
        agrees(*final(field), write_cell(m, x, y, id)),
        forall|i: i32, j: i32| !(i == x && j == y) ==> #[trigger] final(field).cell(i, j) == old(field).cell(i, j),
        final(field).cell(x, y) == Some(id),
        forall|k: ElementId|
            (k != EMPTY || F::shape_fixed()) ==> #[trigger] final(field).census(k) == old(field).census(k) - (if old(field).cell(x, y) == Some(k) {
                1int
            } else {
                0
            }) + (if id == k {
                1int
            } else {
                0
            }),
        shape_kept(*old(field), *final(field)),
        changes_reported(*old(field), *final(field)),
        wake_kept(*old(field), *final(field)),
{
    let ghost before = *field;
    field.set(x, y, id);
    let ghost s1 = *field;
    field.mark_active(x, y);
    proof {
        let r = write_cell(m, x, y, id);
        assert forall|i: i32, j: i32| #[trigger] field.cell(i, j) == (r.cell)(i, j) by {
            assert(field.cell(i, j) == s1.cell(i, j));
            if !(i == x && j == y) {
                assert(s1.cell(i, j) == before.cell(i, j));
            }
        }
        assert forall|i: i32, j: i32| #[trigger] field.heat_at(i, j) == (r.heat)(i, j) by {
            assert(field.cell(i, j) == s1.cell(i, j));
            if !(i == x && j == y) {
                assert(s1.cell(i, j) == before.cell(i, j));
            }
        }
        assert forall|i: i32, j: i32| !(i == x && j == y) implies #[trigger] field.cell(i, j) == before.cell(i, j) by {
            assert(field.cell(i, j) == s1.cell(i, j));
            assert(s1.cell(i, j) == before.cell(i, j));
        }
    }
}

/// What a press reads and writes: cells and temperatures, the bank, and how many
/// cells it has taken and nuggets it has made this tick.
pub struct PressState {
    pub model: HeatModel,
    pub bank: u32,
    pub taken: int,
    pub minted: int,
}

/// One cell of the press's body. Once the rate is reached nothing more is taken. A
/// pressable cell banks its value; when the bank reaches the press's price the cell
/// becomes a nugget and the price leaves the bank, and otherwise the cell becomes its
/// residue.
pub open spec fn press_visit(s: PressState, els: Seq<Option<ElementView>>, currency: ElementId, gold_per: u32, rate: u32, x: i32, y: i32) -> PressState {
    let cell = (s.model.cell)(x, y);
    if s.taken >= rate || !pressable_spec(cell, els) {
        s
    } else {
        let e = els[cell.unwrap() as int].unwrap();
        let banked = s.bank + e.value;
        if banked >= gold_per {
            let rest = banked - gold_per;
            PressState {
                model: write_cell(s.model, x, y, currency),
                bank: if rest > u32::MAX { u32::MAX } else { rest as u32 },
                taken: s.taken + 1,
                minted: s.minted + 1,
            }
        } else {
            PressState { model: write_cell(s.model, x, y, e.residue), bank: banked as u32, taken: s.taken + 1, minted: s.minted }
        }
    }
}

/// Columns `x..=x1` of row `y`, left to right.
pub open spec fn press_row(s: PressState, els: Seq<Option<ElementView>>, currency: ElementId, gold_per: u32, rate: u32, y: i32, x: int, x1: int) -> PressState
    decreases x1 - x + 1,
{
    if x > x1 {
        s
    } else {
        press_row(press_visit(s, els, currency, gold_per, rate, x as i32, y), els, currency, gold_per, rate, y, x + 1, x1)
    }
}

/// Rows `y` up to `y0`, bottom up.
pub open spec fn press_rows(s: PressState, els: Seq<Option<ElementView>>, currency: ElementId, gold_per: u32, rate: u32, body: (int, int, int, int), y: int) -> PressState
    decreases y - body.1 + 1,
{
    if y < body.1 {
        s
    } else {
        press_rows(press_row(s, els, currency, gold_per, rate, y as i32, body.0, body.2), els, currency, gold_per, rate, body, y - 1)
    }
}

/// A press's whole action on its body, bottom row up, left to right. Without money
/// among the elements it does nothing.
pub open spec fn press_spec(m: HeatModel, e: Entity, def: EntityTypeView, els: Seq<Option<ElementView>>) -> PressState {
    let start = PressState { model: m, bank: e.bank, taken: 0, minted: 0 };
    match currency_spec(els) {
        Some(c) => press_rows(start, els, c, def.gold_per, e.effective_rate_spec(def), body_spec(e), body_spec(e).3),
        None => start,
    }
}

/// Presses product into money, and returns how many nuggets it made.
///
/// Takes only what it can press, bottom row up and left to right, up to the machine's
/// rate, and banks each cell's declared value. Every `gold_per` points, the cell it is
/// working on becomes currency; otherwise the cell becomes its residue. Nothing is
/// destroyed, and nothing outside the body changes.
#[verifier::spinoff_prover]
#[verifier::rlimit(40)]
fn press<F: CellField>(field: &mut F, entity: &mut Entity, definition: &EntityType, elements: &ElementTable, Ghost(m0): Ghost<HeatModel>) -> (minted: u64)
    requires
        old(field).field_inv(),
        agrees(*old(field), m0),
        fits_spec(*old(entity)),
    ensures
        final(field).field_inv(),
        agrees(*final(field), press_spec(m0, *old(entity), definition@, elements@).model),
        final(entity).bank == press_spec(m0, *old(entity), definition@, elements@).bank,
        minted == press_spec(m0, *old(entity), definition@, elements@).minted,
        minted <= old(entity).effective_rate_spec(definition@),
        changed_only_in(*old(field), *final(field), body_spec(*old(entity))),
        (Entity { bank: old(entity).bank, ..*final(entity) }) == *old(entity),
        shape_kept(*old(field), *final(field)),
        changes_reported(*old(field), *final(field)),
        wake_kept(*old(field), *final(field)),
{
    let ghost start_field = *field;
    let ghost start_entity = *entity;
    let (x0, y0, x1, y1) = entity.body();
    let currency = match currency_of(elements) {
        Some(c) => c,
        None => {
            proof {
            }
            return 0;
        },
    };
    let rate = entity.effective_rate(definition);
    let ghost body = body_spec(start_entity);
    let ghost result = press_spec(m0, start_entity, definition@, elements@);
    let ghost mut s = PressState { model: m0, bank: start_entity.bank, taken: 0, minted: 0 };
    let mut minted: u64 = 0;
    let mut taken: u32 = 0;
    // Material that has fallen furthest into the machine is about to fall out of it,
    // so that is what gets pressed first.
    let mut y: i32 = y1;
    while y >= y0
        invariant
            shape_kept(*old(field), *field),
            changes_reported(*old(field), *field),
            wake_kept(*old(field), *field),
            y0 - 1 <= y <= y1,
            field.field_inv(),
            (x0 as int, y0 as int, x1 as int, y1 as int) == body_spec(*old(entity)),
            body == body_spec(*old(entity)),
            rate == old(entity).effective_rate_spec(definition@),
            minted <= taken <= rate,
            changed_only_in(*old(field), *field, body_spec(*old(entity))),
            (Entity { bank: old(entity).bank, ..*entity }) == *old(entity),
            agrees(*field, s.model),
            entity.bank == s.bank,
            taken == s.taken,
            minted == s.minted,
            result == press_rows(s, elements@, currency, definition.gold_per, rate, body, y as int),
            result == press_spec(m0, *old(entity), definition@, elements@),
        decreases y - y0 + 1,
    {
        let mut x: i32 = x0;
        while x <= x1
            invariant
                shape_kept(*old(field), *field),
                changes_reported(*old(field), *field),
                wake_kept(*old(field), *field),
                x0 <= x <= x1 + 1,
                y0 <= y <= y1,
                field.field_inv(),
                (x0 as int, y0 as int, x1 as int, y1 as int) == body_spec(*old(entity)),
                body == body_spec(*old(entity)),
                rate == old(entity).effective_rate_spec(definition@),
                minted <= taken <= rate,
                changed_only_in(*old(field), *field, body_spec(*old(entity))),
                (Entity { bank: old(entity).bank, ..*entity }) == *old(entity),
                agrees(*field, s.model),
                entity.bank == s.bank,
                taken == s.taken,
                minted == s.minted,
                result == press_rows(press_row(s, elements@, currency, definition.gold_per, rate, y, x as int, x1 as int), elements@, currency, definition.gold_per, rate, body, y - 1),
                result == press_spec(m0, *old(entity), definition@, elements@),
            decreases x1 - x + 1,
        {
            if taken == rate {
                proof {
                    lemma_press_row_done(s, elements@, currency, definition.gold_per, rate, y, x as int, x1 as int);
                    lemma_press_rows_done(s, elements@, currency, definition.gold_per, rate, body, y - 1);
                }
                return minted;
            }
            let ghost next = press_visit(s, elements@, currency, definition.gold_per, rate, x, y);
            let cell = field.get(x, y);
            if !is_pressable(cell, elements) {
                proof {
                    s = next;
                }
                x = x + 1;
                continue;
            }
            let element = elements.get(cell.unwrap()).unwrap();
            let banked: u64 = entity.bank as u64 + element.value as u64;
            taken = taken + 1;
            let ghost before = *field;
            if banked >= definition.gold_per as u64 {
                let rest: u64 = banked - definition.gold_per as u64;
                entity.bank = if rest > u32::MAX as u64 {
                    u32::MAX
                } else {
                    rest as u32
                };
                write_matter(field, x, y, currency, Ghost(s.model));
                minted = minted + 1;
            } else {
                entity.bank = banked as u32;
                // Converted, not destroyed: what does not complete a nugget becomes
                // residue rather than vanishing.
                write_matter(field, x, y, element.residue, Ghost(s.model));
            }
            proof {
                assert forall|a: i32, b: i32| #[trigger] field.cell(a, b) != old(field).cell(a, b) implies in_area(
                    body_spec(*old(entity)),
                    a as int,
                    b as int,
                ) by {
                    if !(a == x && b == y) {
                        assert(field.cell(a, b) == before.cell(a, b));
                    }
                }
                s = next;
            }
            x = x + 1;
        }
        y = y - 1;
    }
    minted
}

proof fn lemma_press_row_done(s: PressState, els: Seq<Option<ElementView>>, currency: ElementId, gold_per: u32, rate: u32, y: i32, x: int, x1: int)
    requires
        s.taken >= rate,
    ensures
        press_row(s, els, currency, gold_per, rate, y, x, x1) == s,
    decreases x1 - x + 1,
{
    if x <= x1 {
        lemma_press_row_done(s, els, currency, gold_per, rate, y, x + 1, x1);
    }
}

proof fn lemma_press_rows_done(s: PressState, els: Seq<Option<ElementView>>, currency: ElementId, gold_per: u32, rate: u32, body: (int, int, int, int), y: int)
    requires
        s.taken >= rate,
    ensures
        press_rows(s, els, currency, gold_per, rate, body, y) == s,
    decreases y - body.1 + 1,
{
    if y >= body.1 {
        lemma_press_row_done(s, els, currency, gold_per, rate, y as i32, body.0, body.2);
        lemma_press_rows_done(s, els, currency, gold_per, rate, body, y - 1);
    }
}

impl Entity {
    pub open spec fn effective_rate_spec(self, definition: EntityTypeView) -> u32 {
        if self.rate == 0 {
            definition.rate
        } else {
            self.rate
        }
    }
}

/// Whether a limited sweep takes this cell: a refiner takes what it can refine, a
/// heater burns its fuel.
pub open spec fn wants(cell: Option<ElementId>, els: Seq<Option<ElementView>>, input: ElementId, refining: bool) -> bool {
    if refining {
        refinable_spec(cell, els, input)
    } else {
        cell == Some(input)
    }
}

/// What a limited sweep reads and writes: cells and temperatures, and how many cells
/// it has taken.
pub struct TakeState {
    pub model: HeatModel,
    pub taken: int,
}

/// One cell of a limited sweep: once the rate is reached nothing more is taken, and a
/// wanted cell becomes `product`.
pub open spec fn take_visit(s: TakeState, els: Seq<Option<ElementView>>, input: ElementId, refining: bool, product: ElementId, rate: u32, x: i32, y: i32) -> TakeState {
    if s.taken >= rate || !wants((s.model.cell)(x, y), els, input, refining) {
        s
    } else {
        TakeState { model: write_cell(s.model, x, y, product), taken: s.taken + 1 }
    }
}

pub open spec fn take_row(s: TakeState, els: Seq<Option<ElementView>>, input: ElementId, refining: bool, product: ElementId, rate: u32, y: i32, x: int, x1: int) -> TakeState
    decreases x1 - x + 1,
{
    if x > x1 {
        s
    } else {
        take_row(take_visit(s, els, input, refining, product, rate, x as i32, y), els, input, refining, product, rate, y, x + 1, x1)
    }
}

/// Rows `y` up to the top of `area`, bottom up: the material that has fallen furthest
/// in is the material about to fall out.
pub open spec fn take_rows(s: TakeState, els: Seq<Option<ElementView>>, input: ElementId, refining: bool, product: ElementId, rate: u32, area: (int, int, int, int), y: int) -> TakeState
    decreases y - area.1 + 1,
{
    if y < area.1 {
        s
    } else {
        take_rows(take_row(s, els, input, refining, product, rate, y as i32, area.0, area.2), els, input, refining, product, rate, area, y - 1)
    }
}

/// What a refiner's input becomes.
pub open spec fn refined_product(els: Seq<Option<ElementView>>, input: ElementId) -> ElementId {
    if (input as int) < els.len() && els[input as int] is Some {
        els[input as int].unwrap().refined_into
    } else {
        EMPTY
    }
}

/// A refiner's action: up to its rate of cells of its input, in its reach, refined.
pub open spec fn refine_spec(m: HeatModel, e: Entity, def: EntityTypeView, els: Seq<Option<ElementView>>) -> HeatModel {
    let area = reach_area_spec(e, def.reach);
    take_rows(TakeState { model: m, taken: 0 }, els, def.input, true, refined_product(els, def.input), e.effective_rate_spec(def), area, area.3).model
}

/// A heater's burn: up to its rate of cells of fuel in its body, deleted.
pub open spec fn burn_spec(m: HeatModel, e: Entity, def: EntityTypeView, els: Seq<Option<ElementView>>) -> TakeState {
    let area = body_spec(e);
    take_rows(TakeState { model: m, taken: 0 }, els, def.input, false, EMPTY, e.effective_rate_spec(def), area, area.3)
}

/// Every cell of matter in `area` held at temperature `t`.
pub open spec fn warm(m: HeatModel, area: (int, int, int, int), t: i16) -> HeatModel {
    HeatModel {
        cell: m.cell,
        heat: |i: i32, j: i32| if in_area(area, i as int, j as int) && holds_matter(m, i, j) { t } else { (m.heat)(i, j) },
    }
}

/// A heater's action: it burns, and if it burned anything it holds the matter in its
/// body at its output temperature.
pub open spec fn heater_spec(m: HeatModel, e: Entity, def: EntityTypeView, els: Seq<Option<ElementView>>) -> HeatModel {
    let burned = burn_spec(m, e, def, els);
    if burned.taken == 0 {
        burned.model
    } else {
        warm(burned.model, body_spec(e), def.heat_output)
    }
}

proof fn lemma_take_row_done(s: TakeState, els: Seq<Option<ElementView>>, input: ElementId, refining: bool, product: ElementId, rate: u32, y: i32, x: int, x1: int)
    requires
        s.taken >= rate,
    ensures
        take_row(s, els, input, refining, product, rate, y, x, x1) == s,
    decreases x1 - x + 1,
{
    if x <= x1 {
        lemma_take_row_done(s, els, input, refining, product, rate, y, x + 1, x1);
    }
}

proof fn lemma_take_rows_done(s: TakeState, els: Seq<Option<ElementView>>, input: ElementId, refining: bool, product: ElementId, rate: u32, area: (int, int, int, int), y: int)
    requires
        s.taken >= rate,
    ensures
        take_rows(s, els, input, refining, product, rate, area, y) == s,
    decreases y - area.1 + 1,
{
    if y >= area.1 {
        lemma_take_row_done(s, els, input, refining, product, rate, y as i32, area.0, area.2);
        lemma_take_rows_done(s, els, input, refining, product, rate, area, y - 1);
    }
}

/// Takes up to `rate` wanted cells of an area, bottom row up and left to right, each
/// becoming `product`, and reports how many it took.
fn take_cells<F: CellField>(field: &mut F, elements: &ElementTable, x0: i32, y0: i32, x1: i32, y1: i32, rate: u32, input: ElementId, refining: bool, product: ElementId, Ghost(m0): Ghost<HeatModel>) -> (taken: u32)
    requires
        old(field).field_inv(),
        agrees(*old(field), m0),
        i32::MIN < x0 <= x1 + 1,
        x1 < i32::MAX,
        i32::MIN < y0 <= y1 + 1,
        y1 < i32::MAX,
    ensures
        final(field).field_inv(),
        ({
            let r = take_rows(TakeState { model: m0, taken: 0 }, elements@, input, refining, product, rate, (x0 as int, y0 as int, x1 as int, y1 as int), y1 as int);
            agrees(*final(field), r.model) && taken == r.taken
        }),
        taken <= rate,
        changed_only_in(*old(field), *final(field), (x0 as int, y0 as int, x1 as int, y1 as int)),
        shape_kept(*old(field), *final(field)),
        changes_reported(*old(field), *final(field)),
        wake_kept(*old(field), *final(field)),
{
    let ghost area = (x0 as int, y0 as int, x1 as int, y1 as int);
    let ghost result = take_rows(TakeState { model: m0, taken: 0 }, elements@, input, refining, product, rate, area, y1 as int);
    let ghost mut s = TakeState { model: m0, taken: 0 };
    let mut taken: u32 = 0;
    let mut y: i32 = y1;
    while y >= y0
        invariant
            shape_kept(*old(field), *field),
            changes_reported(*old(field), *field),
            wake_kept(*old(field), *field),
            y0 - 1 <= y <= y1,
            i32::MIN < x0 <= x1 + 1,
            x1 < i32::MAX,
            i32::MIN < y0,
            field.field_inv(),
            area == (x0 as int, y0 as int, x1 as int, y1 as int),
            taken <= rate,
            taken == s.taken,
            agrees(*field, s.model),
            changed_only_in(*old(field), *field, area),
            result == take_rows(s, elements@, input, refining, product, rate, area, y as int),
            result == take_rows(TakeState { model: m0, taken: 0 }, elements@, input, refining, product, rate, area, y1 as int),
        decreases y - y0 + 1,
    {
        let mut x: i32 = x0;
        while x <= x1
            invariant
                shape_kept(*old(field), *field),
                changes_reported(*old(field), *field),
                wake_kept(*old(field), *field),
                x0 <= x <= x1 + 1,
                y0 <= y <= y1,
                i32::MIN < x0,
                x1 < i32::MAX,
                i32::MIN < y0,
                field.field_inv(),
                area == (x0 as int, y0 as int, x1 as int, y1 as int),
                taken <= rate,
                taken == s.taken,
                agrees(*field, s.model),
                changed_only_in(*old(field), *field, area),
                result == take_rows(take_row(s, elements@, input, refining, product, rate, y, x as int, x1 as int), elements@, input, refining, product, rate, area, y - 1),
                result == take_rows(TakeState { model: m0, taken: 0 }, elements@, input, refining, product, rate, area, y1 as int),
            decreases x1 - x + 1,
        {
            if taken == rate {
                proof {
                    lemma_take_row_done(s, elements@, input, refining, product, rate, y, x as int, x1 as int);
                    lemma_take_rows_done(s, elements@, input, refining, product, rate, area, y - 1);
                }
                return taken;
            }
            let ghost next = take_visit(s, elements@, input, refining, product, rate, x, y);
            let cell = field.get(x, y);
            let wanted = if refining {
                is_refinable(cell, elements, input)
            } else {
                match cell {
                    Some(id) => id == input,
                    None => false,
                }
            };
            if !wanted {
                proof {
                    s = next;
                }
                x = x + 1;
                continue;
            }
            let ghost before = *field;
            write_matter(field, x, y, product, Ghost(s.model));
            proof {
                assert forall|a: i32, b: i32| #[trigger] field.cell(a, b) != old(field).cell(a, b) implies in_area(area, a as int, b as int) by {
                    if !(a == x && b == y) {
                        assert(field.cell(a, b) == before.cell(a, b));
                    }
                }
                s = next;
            }
            taken = taken + 1;
            x = x + 1;
        }
        y = y - 1;
    }
    taken
}

/// Turns cells of the machine's input in its reach into their declared refined form,
/// up to its rate a tick: one cell in, one cell out, nothing banked.
fn refine<F: CellField>(field: &mut F, entity: &Entity, definition: &EntityType, elements: &ElementTable, Ghost(m0): Ghost<HeatModel>)
    requires
        old(field).field_inv(),
        agrees(*old(field), m0),
        reach_fits(*entity, definition.reach),
    ensures
        final(field).field_inv(),
        agrees(*final(field), refine_spec(m0, *entity, definition@, elements@)),
        changed_only_in(*old(field), *final(field), reach_area_spec(*entity, definition.reach)),
        shape_kept(*old(field), *final(field)),
        changes_reported(*old(field), *final(field)),
        wake_kept(*old(field), *final(field)),
{
    let (x0, y0, x1, y1) = entity.reach_area(definition.reach);
    let rate = entity.effective_rate(definition);
    let product: ElementId = match elements.get(definition.input) {
        Some(e) => e.refined_into,
        None => EMPTY,
    };
    take_cells(field, elements, x0, y0, x1, y1, rate, definition.input, true, product, Ghost(m0));
}

/// Burns up to the machine's rate of fuel and, if it burned any, holds its own
/// footprint at its output temperature. Fed or not is decided fresh every tick: a
/// heater that ran dry simply stops, and conduction alone carries its footprint back
/// toward ambient.
fn heater<F: CellField>(field: &mut F, entity: &Entity, definition: &EntityType, elements: &ElementTable, Ghost(m0): Ghost<HeatModel>)
    requires
        old(field).field_inv(),
        agrees(*old(field), m0),
        fits_spec(*entity),
    ensures
        final(field).field_inv(),
        agrees(*final(field), heater_spec(m0, *entity, definition@, elements@)),
        changed_only_in(*old(field), *final(field), body_spec(*entity)),
        shape_kept(*old(field), *final(field)),
        changes_reported(*old(field), *final(field)),
        wake_kept(*old(field), *final(field)),
{
    let (x0, y0, x1, y1) = entity.body();
    let rate = entity.effective_rate(definition);
    // Fuel is eaten as valueless input: a heater has no byproduct.
    let burned = take_cells(field, elements, x0, y0, x1, y1, rate, definition.input, false, EMPTY, Ghost(m0));
    if burned == 0 {
        return;
    }
    let ghost m = burn_spec(m0, *entity, definition@, elements@).model;
    let ghost area = body_spec(*entity);
    let ghost target = warm(m, area, definition.heat_output);
    let ghost burnt = *field;
    let mut y: i32 = y0;
    while y <= y1
        invariant
            shape_kept(*old(field), *field),
            changes_reported(*old(field), *field),
            wake_kept(*old(field), *field),
            y0 <= y <= y1 + 1,
            y1 < i32::MAX,
            x0 <= x1 + 1,
            x1 < i32::MAX,
            field.field_inv(),
            area == body_spec(*entity),
            (x0 as int, y0 as int, x1 as int, y1 as int) == area,
            agrees(burnt, m),
            forall|i: i32, j: i32| #[trigger] field.cell(i, j) == burnt.cell(i, j),
            forall|i: i32, j: i32| #[trigger] field.heat_at(i, j) == (if in_area(area, i as int, j as int) && j < y && holds_matter(m, i, j) {
                definition.heat_output
            } else {
                burnt.heat_at(i, j)
            }),
            changed_only_in(*old(field), burnt, area),
        decreases y1 - y + 1,
    {
        warm_row(field, x0, x1, y, definition.heat_output, Ghost(m), Ghost(burnt), Ghost(area));
        y = y + 1;
    }
    proof {
        assert forall|i: i32, j: i32| #[trigger] field.cell(i, j) != old(field).cell(i, j) implies in_area(area, i as int, j as int) by {
            assert(field.cell(i, j) == burnt.cell(i, j));
        }
    }
}

/// Holds the matter of one row of a heater's body at its output temperature.
fn warm_row<F: CellField>(field: &mut F, x0: i32, x1: i32, y: i32, t: i16, Ghost(m): Ghost<HeatModel>, Ghost(burnt): Ghost<F>, Ghost(area): Ghost<(int, int, int, int)>)
    requires
        old(field).field_inv(),
        agrees(burnt, m),
        x0 <= x1 + 1,
        x1 < i32::MAX,
        area.0 == x0,
        area.2 == x1,
        area.1 <= y <= area.3,
        forall|i: i32, j: i32| #[trigger] old(field).cell(i, j) == burnt.cell(i, j),
        forall|i: i32, j: i32| #[trigger] old(field).heat_at(i, j) == (if in_area(area, i as int, j as int) && j < y && holds_matter(m, i, j) {
            t
        } else {
            burnt.heat_at(i, j)
        }),
    ensures
        final(field).field_inv(),
        forall|i: i32, j: i32| #[trigger] final(field).cell(i, j) == burnt.cell(i, j),
        forall|i: i32, j: i32| #[trigger] final(field).heat_at(i, j) == (if in_area(area, i as int, j as int) && j <= y && holds_matter(m, i, j) {
            t
        } else {
            burnt.heat_at(i, j)
        }),
        shape_kept(*old(field), *final(field)),
        changes_reported(*old(field), *final(field)),
        wake_kept(*old(field), *final(field)),
{
    let mut x: i32 = x0;
    while x <= x1
        invariant
            shape_kept(*old(field), *field),
            changes_reported(*old(field), *field),
            wake_kept(*old(field), *field),
            x0 <= x <= x1 + 1,
            x1 < i32::MAX,
            field.field_inv(),
            agrees(burnt, m),
            area.0 == x0,
            area.2 == x1,
            area.1 <= y <= area.3,
            forall|i: i32, j: i32| #[trigger] field.cell(i, j) == burnt.cell(i, j),
            forall|i: i32, j: i32| #[trigger] field.heat_at(i, j) == (if in_area(area, i as int, j as int) && (j < y || (j == y && i < x)) && holds_matter(m, i, j) {
                t
            } else {
                burnt.heat_at(i, j)
            }),
        decreases x1 - x + 1,
    {
        let ghost before = *field;
        field.set_temperature(x, y, t);
        proof {
            assert forall|i: i32, j: i32| #[trigger] field.cell(i, j) == burnt.cell(i, j) by {
                assert(field.cell(i, j) == before.cell(i, j));
            }
            assert forall|i: i32, j: i32| #[trigger] field.heat_at(i, j) == (if in_area(area, i as int, j as int) && (j < y || (j == y && i < x + 1)) && holds_matter(m, i, j) {
                t
            } else {
                burnt.heat_at(i, j)
            }) by {
                assert(before.cell(i, j) == burnt.cell(i, j));
                if !(i == x && j == y) {
                    assert(field.cell(i, j) == before.cell(i, j));
                }
            }
        }
        x = x + 1;
    }
}




/// With no machines, the machine pass changes nothing and mints nothing.
pub proof fn lemma_tick_without_machines(m: HeatModel, types: Seq<Option<EntityTypeView>>, els: Seq<Option<ElementView>>, seed: u64, now: u64)
    ensures
        tick_spec(m, Seq::empty(), types, els, seed, now).model == m,
        tick_spec(m, Seq::empty(), types, els, seed, now).minted == 0,
{
    let pairs = belt_pairs(Seq::<Entity>::empty(), types, now, 0);
    assert(pairs =~= Seq::<(i64, usize)>::empty());
    let order = belt_order(pairs);
    assert(Seq::<(i64, usize)>::empty().to_multiset() == pairs.to_multiset() && lex_sorted(Seq::<(i64, usize)>::empty()));
    assert(order.to_multiset() == pairs.to_multiset());
    vstd::seq_lib::to_multiset_len(order);
    vstd::seq_lib::to_multiset_len(pairs);
    assert(order.len() == 0);
}


/// A limited sweep of one row changes only cells it wanted, and each into `product`.
proof fn lemma_take_row_changes(s: TakeState, els: Seq<Option<ElementView>>, input: ElementId, refining: bool, product: ElementId, rate: u32, y: i32, x: int, x1: int)
    ensures
        forall|i: i32, j: i32|
            #[trigger] (take_row(s, els, input, refining, product, rate, y, x, x1).model.cell)(i, j) != (s.model.cell)(i, j) ==> wants(
                (s.model.cell)(i, j),
                els,
                input,
                refining,
            ) && (take_row(s, els, input, refining, product, rate, y, x, x1).model.cell)(i, j) == Some(product),
    decreases x1 - x + 1,
{
    if x <= x1 {
        let s1 = take_visit(s, els, input, refining, product, rate, x as i32, y);
        lemma_take_row_changes(s1, els, input, refining, product, rate, y, x + 1, x1);
        let r = take_row(s1, els, input, refining, product, rate, y, x + 1, x1);
        assert(r == take_row(s, els, input, refining, product, rate, y, x, x1));
        assert forall|i: i32, j: i32| #[trigger] (r.model.cell)(i, j) != (s.model.cell)(i, j) implies wants((s.model.cell)(i, j), els, input, refining)
            && (r.model.cell)(i, j) == Some(product) by {
            if (r.model.cell)(i, j) == (s1.model.cell)(i, j) {
                assert((s1.model.cell)(i, j) != (s.model.cell)(i, j));
                assert(i == x as i32 && j == y);
            } else if (s1.model.cell)(i, j) != (s.model.cell)(i, j) {
                assert(i == x as i32 && j == y);
            }
        }
    }
}

/// A limited sweep of rows changes only cells it wanted, and each into `product`.
proof fn lemma_take_rows_changes(s: TakeState, els: Seq<Option<ElementView>>, input: ElementId, refining: bool, product: ElementId, rate: u32, area: (int, int, int, int), y: int)
    ensures
        forall|i: i32, j: i32|
            #[trigger] (take_rows(s, els, input, refining, product, rate, area, y).model.cell)(i, j) != (s.model.cell)(i, j) ==> wants(
                (s.model.cell)(i, j),
                els,
                input,
                refining,
            ) && (take_rows(s, els, input, refining, product, rate, area, y).model.cell)(i, j) == Some(product),
    decreases y - area.1 + 1,
{
    if y >= area.1 {
        let s1 = take_row(s, els, input, refining, product, rate, y as i32, area.0, area.2);
        lemma_take_row_changes(s, els, input, refining, product, rate, y as i32, area.0, area.2);
        lemma_take_rows_changes(s1, els, input, refining, product, rate, area, y - 1);
        let r = take_rows(s1, els, input, refining, product, rate, area, y - 1);
        assert(r == take_rows(s, els, input, refining, product, rate, area, y));
        assert forall|i: i32, j: i32| #[trigger] (r.model.cell)(i, j) != (s.model.cell)(i, j) implies wants((s.model.cell)(i, j), els, input, refining)
            && (r.model.cell)(i, j) == Some(product) by {
            if (r.model.cell)(i, j) != (s1.model.cell)(i, j) {
                if (s1.model.cell)(i, j) != (s.model.cell)(i, j) {
                    assert(wants((s1.model.cell)(i, j), els, input, refining));
                }
            }
        }
    }
}

/// Refining. Every cell a refiner changes held the refiner's input, an element the table
/// defines with something to refine into, and holds afterwards exactly what the table
/// says that input refines into.
pub proof fn lemma_refines(m: HeatModel, e: Entity, def: EntityTypeView, els: Seq<Option<ElementView>>)
    ensures
        forall|x: i32, y: i32|
            #[trigger] (refine_spec(m, e, def, els).cell)(x, y) != (m.cell)(x, y) ==> {
                &&& (m.cell)(x, y) == Some(def.input)
                &&& (def.input as int) < els.len()
                &&& els[def.input as int] is Some
                &&& els[def.input as int].unwrap().refined_into != EMPTY
                &&& (refine_spec(m, e, def, els).cell)(x, y) == Some(els[def.input as int].unwrap().refined_into)
            },
{
    let area = reach_area_spec(e, def.reach);
    lemma_take_rows_changes(
        TakeState { model: m, taken: 0 },
        els,
        def.input,
        true,
        refined_product(els, def.input),
        e.effective_rate_spec(def),
        area,
        area.3,
    );
}


/// A wanted cell is a cell of the input.
proof fn lemma_wanted_is_input(cell: Option<ElementId>, els: Seq<Option<ElementView>>, input: ElementId, refining: bool)
    ensures
        wants(cell, els, input, refining) ==> cell == Some(input),
{
}

/// A limited sweep of a row that still has room under its rate, over a cell it wants
/// that does not already hold its product, changes some cell.
proof fn lemma_take_row_progress(s: TakeState, els: Seq<Option<ElementView>>, input: ElementId, refining: bool, product: ElementId, rate: u32, y: i32, x: int, x1: int, cx: int)
    requires
        x <= cx <= x1,
        i32::MIN <= x,
        x1 <= i32::MAX,
        wants((s.model.cell)(cx as i32, y), els, input, refining),
        s.taken < rate,
        input != product,
    ensures
        exists|i: i32, j: i32| #[trigger] (take_row(s, els, input, refining, product, rate, y, x, x1).model.cell)(i, j) != (s.model.cell)(i, j),
    decreases x1 - x + 1,
{
    let s1 = take_visit(s, els, input, refining, product, rate, x as i32, y);
    let r = take_row(s1, els, input, refining, product, rate, y, x + 1, x1);
    assert(r == take_row(s, els, input, refining, product, rate, y, x, x1));
    lemma_take_row_changes(s1, els, input, refining, product, rate, y, x + 1, x1);
    lemma_wanted_is_input((s.model.cell)(x as i32, y), els, input, refining);
    lemma_wanted_is_input((s.model.cell)(cx as i32, y), els, input, refining);
    if x == cx || s1.taken >= rate {
        // The visit at `x` took its cell, which now holds the product, and no later
        // visit turns it back into the input.
        assert(s1.taken == s.taken + 1);
        assert((s1.model.cell)(x as i32, y) == Some(product));
        assert((s.model.cell)(x as i32, y) == Some(input));
        assert((r.model.cell)(x as i32, y) != (s.model.cell)(x as i32, y));
    } else {
        assert((s1.model.cell)(cx as i32, y) == (s.model.cell)(cx as i32, y));
        lemma_take_row_progress(s1, els, input, refining, product, rate, y, x + 1, x1, cx);
        let (i, j) = choose|i: i32, j: i32| #[trigger] (r.model.cell)(i, j) != (s1.model.cell)(i, j);
        if (s1.model.cell)(i, j) != (s.model.cell)(i, j) {
            assert(i == x as i32 && j == y);
            assert((r.model.cell)(i, j) == Some(product));
            assert((s1.model.cell)(i, j) == Some(product));
        }
        assert((r.model.cell)(i, j) != (s.model.cell)(i, j));
    }
}

/// A limited sweep of rows that still has room under its rate, over a cell it wants
/// that does not already hold its product, changes some cell.
proof fn lemma_take_rows_progress(s: TakeState, els: Seq<Option<ElementView>>, input: ElementId, refining: bool, product: ElementId, rate: u32, area: (int, int, int, int), y: int, cx: int, cy: int)
    requires
        area.0 <= cx <= area.2,
        area.1 <= cy <= y,
        i32::MIN <= area.0,
        area.2 <= i32::MAX,
        i32::MIN <= area.1,
        y <= i32::MAX,
        wants((s.model.cell)(cx as i32, cy as i32), els, input, refining),
        s.taken < rate,
        input != product,
    ensures
        exists|i: i32, j: i32| #[trigger] (take_rows(s, els, input, refining, product, rate, area, y).model.cell)(i, j) != (s.model.cell)(i, j),
    decreases y - area.1 + 1,
{
    let s1 = take_row(s, els, input, refining, product, rate, y as i32, area.0, area.2);
    let r = take_rows(s1, els, input, refining, product, rate, area, y - 1);
    assert(r == take_rows(s, els, input, refining, product, rate, area, y));
    lemma_take_row_changes(s, els, input, refining, product, rate, y as i32, area.0, area.2);
    lemma_take_rows_changes(s1, els, input, refining, product, rate, area, y - 1);
    if cy == y {
        lemma_take_row_progress(s, els, input, refining, product, rate, y as i32, area.0, area.2, cx);
        let (i, j) = choose|i: i32, j: i32| #[trigger] (s1.model.cell)(i, j) != (s.model.cell)(i, j);
        lemma_wanted_is_input((s.model.cell)(i, j), els, input, refining);
        if (r.model.cell)(i, j) != (s1.model.cell)(i, j) {
            assert((r.model.cell)(i, j) == Some(product));
        }
        assert((r.model.cell)(i, j) != (s.model.cell)(i, j));
    } else if exists|i: i32, j: i32| #[trigger] (s1.model.cell)(i, j) != (s.model.cell)(i, j) {
        let (i, j) = choose|i: i32, j: i32| #[trigger] (s1.model.cell)(i, j) != (s.model.cell)(i, j);
        lemma_wanted_is_input((s.model.cell)(i, j), els, input, refining);
        if (r.model.cell)(i, j) != (s1.model.cell)(i, j) {
            assert((r.model.cell)(i, j) == Some(product));
        }
        assert((r.model.cell)(i, j) != (s.model.cell)(i, j));
    } else {
        assert(s1.model.cell == s.model.cell) by {
            assert forall|i: i32, j: i32| #[trigger] (s1.model.cell)(i, j) == (s.model.cell)(i, j) by {}
        }
        lemma_take_row_taken(s, els, input, refining, product, rate, y as i32, area.0, area.2);
        assert((s1.model.cell)(cx as i32, cy as i32) == (s.model.cell)(cx as i32, cy as i32));
        lemma_take_rows_progress(s1, els, input, refining, product, rate, area, y - 1, cx, cy);
    }
}


/// A limited sweep of a row that takes anything changes some cell, when its product is
/// not its input.
proof fn lemma_take_row_taken(s: TakeState, els: Seq<Option<ElementView>>, input: ElementId, refining: bool, product: ElementId, rate: u32, y: i32, x: int, x1: int)
    requires
        input != product,
    ensures
        take_row(s, els, input, refining, product, rate, y, x, x1).taken >= s.taken,
        take_row(s, els, input, refining, product, rate, y, x, x1).taken != s.taken ==> exists|i: i32, j: i32|
            #[trigger] (take_row(s, els, input, refining, product, rate, y, x, x1).model.cell)(i, j) != (s.model.cell)(i, j),
    decreases x1 - x + 1,
{
    if x <= x1 {
        let s1 = take_visit(s, els, input, refining, product, rate, x as i32, y);
        let r = take_row(s1, els, input, refining, product, rate, y, x + 1, x1);
        assert(r == take_row(s, els, input, refining, product, rate, y, x, x1));
        lemma_take_row_taken(s1, els, input, refining, product, rate, y, x + 1, x1);
        lemma_take_row_changes(s1, els, input, refining, product, rate, y, x + 1, x1);
        if s1.taken != s.taken {
            lemma_wanted_is_input((s.model.cell)(x as i32, y), els, input, refining);
            assert((s1.model.cell)(x as i32, y) == Some(product));
            assert((r.model.cell)(x as i32, y) != (s.model.cell)(x as i32, y));
        } else {
            assert(s1 == s);
        }
    }
}


/// Refining makes progress. A refiner with a rate of at least one, whose reach lies in
/// the plane and holds a cell of its input that the table says refines into something
/// other than itself, changes some cell.
pub proof fn lemma_refiner_progress(m: HeatModel, e: Entity, def: EntityTypeView, els: Seq<Option<ElementView>>, cx: i32, cy: i32)
    requires
        e.effective_rate_spec(def) >= 1,
        reach_fits(e, def.reach),
        in_area(reach_area_spec(e, def.reach), cx as int, cy as int),
        (m.cell)(cx, cy) == Some(def.input),
        (def.input as int) < els.len(),
        els[def.input as int] is Some,
        els[def.input as int].unwrap().refined_into != EMPTY,
        els[def.input as int].unwrap().refined_into != def.input,
    ensures
        exists|x: i32, y: i32| #[trigger] (refine_spec(m, e, def, els).cell)(x, y) != (m.cell)(x, y),
{
    let area = reach_area_spec(e, def.reach);
    assert(refinable_spec((m.cell)(cx, cy), els, def.input));
    lemma_take_rows_progress(
        TakeState { model: m, taken: 0 },
        els,
        def.input,
        true,
        refined_product(els, def.input),
        e.effective_rate_spec(def),
        area,
        area.3,
        cx as int,
        cy as int,
    );
    let r = take_rows(
        TakeState { model: m, taken: 0 },
        els,
        def.input,
        true,
        refined_product(els, def.input),
        e.effective_rate_spec(def),
        area,
        area.3,
    );
    assert(refine_spec(m, e, def, els) == r.model);
    let (i, j) = choose|i: i32, j: i32| #[trigger] (r.model.cell)(i, j) != (m.cell)(i, j);
    assert((refine_spec(m, e, def, els).cell)(i, j) != (m.cell)(i, j));
}


/// The cells two models hold differently.
pub open spec fn changed_cells(a: HeatModel, b: HeatModel) -> Set<(i32, i32)> {
    Set::new(|p: (i32, i32)| (b.cell)(p.0, p.1) != (a.cell)(p.0, p.1))
}

/// A limited sweep of one row changes no more cells than it takes.
proof fn lemma_take_row_count(s: TakeState, els: Seq<Option<ElementView>>, input: ElementId, refining: bool, product: ElementId, rate: u32, y: i32, x: int, x1: int)
    ensures
        changed_cells(s.model, take_row(s, els, input, refining, product, rate, y, x, x1).model).finite(),
        changed_cells(s.model, take_row(s, els, input, refining, product, rate, y, x, x1).model).len() <= take_row(
            s,
            els,
            input,
            refining,
            product,
            rate,
            y,
            x,
            x1,
        ).taken - s.taken,
        take_row(s, els, input, refining, product, rate, y, x, x1).taken >= s.taken,
    decreases x1 - x + 1,
{
    if x > x1 {
        assert(changed_cells(s.model, s.model) =~= Set::<(i32, i32)>::empty());
    } else {
        let s1 = take_visit(s, els, input, refining, product, rate, x as i32, y);
        let r = take_row(s1, els, input, refining, product, rate, y, x + 1, x1);
        assert(r == take_row(s, els, input, refining, product, rate, y, x, x1));
        lemma_take_row_count(s1, els, input, refining, product, rate, y, x + 1, x1);
        let first = changed_cells(s.model, s1.model);
        let rest = changed_cells(s1.model, r.model);
        if s1.taken == s.taken {
            assert(s1 == s);
            assert(changed_cells(s.model, r.model) =~= rest);
        } else {
            assert(first.subset_of(set![(x as i32, y)]));
            vstd::set_lib::lemma_len_subset(first, set![(x as i32, y)]);
            assert(set![(x as i32, y)].len() == 1) by {
                assert(set![(x as i32, y)] =~= Set::<(i32, i32)>::empty().insert((x as i32, y)));
            }
            vstd::set_lib::lemma_len_union(first, rest);
            assert(changed_cells(s.model, r.model).subset_of(first.union(rest)));
            vstd::set_lib::lemma_len_subset(changed_cells(s.model, r.model), first.union(rest));
        }
    }
}

/// A limited sweep of rows changes no more cells than it takes.
proof fn lemma_take_rows_count(s: TakeState, els: Seq<Option<ElementView>>, input: ElementId, refining: bool, product: ElementId, rate: u32, area: (int, int, int, int), y: int)
    ensures
        changed_cells(s.model, take_rows(s, els, input, refining, product, rate, area, y).model).finite(),
        changed_cells(s.model, take_rows(s, els, input, refining, product, rate, area, y).model).len() <= take_rows(
            s,
            els,
            input,
            refining,
            product,
            rate,
            area,
            y,
        ).taken - s.taken,
        take_rows(s, els, input, refining, product, rate, area, y).taken >= s.taken,
    decreases y - area.1 + 1,
{
    if y < area.1 {
        assert(changed_cells(s.model, s.model) =~= Set::<(i32, i32)>::empty());
    } else {
        let s1 = take_row(s, els, input, refining, product, rate, y as i32, area.0, area.2);
        let r = take_rows(s1, els, input, refining, product, rate, area, y - 1);
        assert(r == take_rows(s, els, input, refining, product, rate, area, y));
        lemma_take_row_count(s, els, input, refining, product, rate, y as i32, area.0, area.2);
        lemma_take_rows_count(s1, els, input, refining, product, rate, area, y - 1);
        let first = changed_cells(s.model, s1.model);
        let rest = changed_cells(s1.model, r.model);
        vstd::set_lib::lemma_len_union(first, rest);
        assert(changed_cells(s.model, r.model).subset_of(first.union(rest)));
        vstd::set_lib::lemma_len_subset(changed_cells(s.model, r.model), first.union(rest));
    }
}

/// A limited sweep never takes more than its rate, once it starts within it.
proof fn lemma_take_rows_rate(s: TakeState, els: Seq<Option<ElementView>>, input: ElementId, refining: bool, product: ElementId, rate: u32, area: (int, int, int, int), y: int)
    requires
        s.taken <= rate,
    ensures
        take_rows(s, els, input, refining, product, rate, area, y).taken <= rate,
    decreases y - area.1 + 1,
{
    if y >= area.1 {
        let s1 = take_row(s, els, input, refining, product, rate, y as i32, area.0, area.2);
        lemma_take_row_rate(s, els, input, refining, product, rate, y as i32, area.0, area.2);
        lemma_take_rows_rate(s1, els, input, refining, product, rate, area, y - 1);
    }
}

proof fn lemma_take_row_rate(s: TakeState, els: Seq<Option<ElementView>>, input: ElementId, refining: bool, product: ElementId, rate: u32, y: i32, x: int, x1: int)
    requires
        s.taken <= rate,
    ensures
        take_row(s, els, input, refining, product, rate, y, x, x1).taken <= rate,
    decreases x1 - x + 1,
{
    if x <= x1 {
        let s1 = take_visit(s, els, input, refining, product, rate, x as i32, y);
        lemma_take_row_rate(s1, els, input, refining, product, rate, y, x + 1, x1);
    }
}

/// Refining is limited by the rate. A refiner changes at most its rate of cells.
pub proof fn lemma_refiner_rate(m: HeatModel, e: Entity, def: EntityTypeView, els: Seq<Option<ElementView>>)
    ensures
        changed_cells(m, refine_spec(m, e, def, els)).finite(),
        changed_cells(m, refine_spec(m, e, def, els)).len() <= e.effective_rate_spec(def),
{
    let area = reach_area_spec(e, def.reach);
    let s = TakeState { model: m, taken: 0 };
    let rate = e.effective_rate_spec(def);
    lemma_take_rows_count(s, els, def.input, true, refined_product(els, def.input), rate, area, area.3);
    lemma_take_rows_rate(s, els, def.input, true, refined_product(els, def.input), rate, area, area.3);
}

} // verus!
