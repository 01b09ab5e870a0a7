//! The element table, loaded from data.
//!
//! Element definitions live in data files, not code: the simulation rules dispatch on
//! an element's `state`, never on its identity.

use vstd::prelude::*;
use vstd::string::StringSliceAdditionalSpecFns;
use vstd::utf8::encode_utf8;
use crate::fixed::Fixed;
use crate::json::{self, Json, JsonError, JsonView, jv_get, jv_str, jv_array, jv_bool, jv_i32, jv_u8, jv_fixed};

verus! {

/// One byte per cell. Id 0 is reserved for empty space and never appears in the table.
pub type ElementId = u8;

/// Empty space. Not an element: it has no definition and no behaviour.
pub const EMPTY: ElementId = 0;

/// The largest id the table can hold, bounded by the one-byte cell.
pub const MAX_ELEMENT_ID: ElementId = 255;

/// What an element does, which is all the simulation rules are allowed to know about it.
#[derive(Clone, Copy, PartialEq, Eq, Structural, Debug)]
pub enum State {
    /// Never moves.
    Solid,
    /// Falls, and heaps: slides diagonally but does not flow sideways.
    Powder,
    /// Falls, and flows sideways to find its level.
    Liquid,
    /// Rises.
    Gas,
}

/// Why a data file was refused.
#[derive(Clone, Copy, PartialEq, Eq, Debug)]
pub enum DataError {
    Json(JsonError),
    MissingField { field: &'static str },
    BadField { field: &'static str },
    /// Id 0 means empty space and cannot be given to an element.
    ReservedId,
    DuplicateId(ElementId),
    /// A reaction named an element that is not defined.
    UnknownElement { field: &'static str },
    BadColor,
    /// The file parsed but defined no elements.
    Empty,
}

/// How a JSON error's kind reads in a message.
pub open spec fn kind_text(kind: crate::json::JsonErrorKind) -> Seq<char> {
    match kind {
        crate::json::JsonErrorKind::UnexpectedEnd => "UnexpectedEnd"@,
        crate::json::JsonErrorKind::UnexpectedByte => "UnexpectedByte"@,
        crate::json::JsonErrorKind::EscapesUnsupported => "EscapesUnsupported"@,
        crate::json::JsonErrorKind::UnterminatedString => "UnterminatedString"@,
        crate::json::JsonErrorKind::MalformedNumber => "MalformedNumber"@,
        crate::json::JsonErrorKind::TooDeep => "TooDeep"@,
        crate::json::JsonErrorKind::TrailingData => "TrailingData"@,
    }
}

/// How a refusal reads, for a person fixing the data file.
pub open spec fn error_text(e: DataError) -> Seq<char> {
    match e {
        DataError::Json(error) => "invalid JSON at byte "@ + crate::fixed::decimal_chars(error.offset as nat) + ": "@ + kind_text(error.kind),
        DataError::MissingField { field } => "missing field `"@ + field@ + "`"@,
        DataError::BadField { field } => "invalid field `"@ + field@ + "`"@,
        DataError::ReservedId => "id 0 is reserved for empty space"@,
        DataError::DuplicateId(id) => "duplicate element id "@ + crate::fixed::decimal_chars(id as nat),
        DataError::UnknownElement { field } => "field `"@ + field@ + "` names an undefined element"@,
        DataError::BadColor => "color must be \"#RRGGBB\""@,
        DataError::Empty => "no elements defined"@,
    }
}

impl DataError {
    /// The refusal as a message.
    pub fn to_string(&self) -> (r: String)
        ensures
            r@ == error_text(*self),
    {
        let mut out: String = String::new();
        match self {
            DataError::Json(error) => {
                out.append("invalid JSON at byte ");
                crate::fixed::push_decimal(&mut out, error.offset as u64);
                out.append(": ");
                match error.kind {
                    crate::json::JsonErrorKind::UnexpectedEnd => out.append("UnexpectedEnd"),
                    crate::json::JsonErrorKind::UnexpectedByte => out.append("UnexpectedByte"),
                    crate::json::JsonErrorKind::EscapesUnsupported => out.append("EscapesUnsupported"),
                    crate::json::JsonErrorKind::UnterminatedString => out.append("UnterminatedString"),
                    crate::json::JsonErrorKind::MalformedNumber => out.append("MalformedNumber"),
                    crate::json::JsonErrorKind::TooDeep => out.append("TooDeep"),
                    crate::json::JsonErrorKind::TrailingData => out.append("TrailingData"),
                }
            },
            DataError::MissingField { field } => {
                out.append("missing field `");
                out.append(field);
                out.append("`");
            },
            DataError::BadField { field } => {
                out.append("invalid field `");
                out.append(field);
                out.append("`");
            },
            DataError::ReservedId => out.append("id 0 is reserved for empty space"),
            DataError::DuplicateId(id) => {
                out.append("duplicate element id ");
                crate::fixed::push_decimal(&mut out, *id as u64);
            },
            DataError::UnknownElement { field } => {
                out.append("field `");
                out.append(field);
                out.append("` names an undefined element");
            },
            DataError::BadColor => out.append("color must be \"#RRGGBB\""),
            DataError::Empty => out.append("no elements defined"),
        }
        proof {
            assert(out@ =~= error_text(*self));
        }
        out
    }
}

/// Everything the data file says about one element.
#[derive(Clone, Debug)]
pub struct Element {
    pub id: ElementId,
    pub name: String,
    pub state: State,
    /// Relative, unitless. Decides what displaces what.
    pub density: i32,
    /// Kelvin.
    pub melting_point: i32,
    /// Kelvin.
    pub boiling_point: i32,
    pub thermal_conductivity: Fixed,
    /// Straight RGB.
    pub color: [u8; 3],
    pub color_variance: u8,
    pub flammability: Fixed,
    pub hardness: Fixed,
    /// What a press pays per cell of it, in points. Zero: a press ignores it.
    pub value: u32,
    /// Whether this is money.
    pub currency: bool,
    /// What a press leaves behind when it does not complete a nugget.
    pub residue: ElementId,
    /// What a refining machine turns this into. `EMPTY`: nothing refines it.
    pub refined_into: ElementId,
    /// What this becomes at or above `boiling_point`.
    pub boils_into: ElementId,
    /// What this becomes at or above `melting_point`.
    pub melts_into: ElementId,
    /// What this gas becomes below `boiling_point`.
    pub condenses_into: ElementId,
    /// What this liquid becomes below `melting_point`.
    pub freezes_into: ElementId,
    /// What this becomes when it burns.
    pub burns_into: ElementId,
    /// Kelvin; at or above it `burns_into` may fire. `i32::MAX` means never.
    pub ignition_point: i32,
    /// What this becomes under enough load.
    pub compacts_into: ElementId,
    /// The load at which compaction can start. Zero or less: never.
    pub compaction_load: i32,
}

/// An element as plain values; the name is its UTF-8 bytes.
pub struct ElementView {
    pub id: u8,
    pub name: Seq<u8>,
    pub state: State,
    pub density: i32,
    pub melting_point: i32,
    pub boiling_point: i32,
    pub thermal_conductivity: Fixed,
    pub color: Seq<u8>,
    pub color_variance: u8,
    pub flammability: Fixed,
    pub hardness: Fixed,
    pub value: u32,
    pub currency: bool,
    pub residue: u8,
    pub refined_into: u8,
    pub boils_into: u8,
    pub melts_into: u8,
    pub condenses_into: u8,
    pub freezes_into: u8,
    pub burns_into: u8,
    pub ignition_point: i32,
    pub compacts_into: u8,
    pub compaction_load: i32,
}

impl View for Element {
    type V = ElementView;

    open spec fn view(&self) -> ElementView {
        ElementView {
            id: self.id,
            name: encode_utf8(self.name@),
            state: self.state,
            density: self.density,
            melting_point: self.melting_point,
            boiling_point: self.boiling_point,
            thermal_conductivity: self.thermal_conductivity,
            color: self.color@,
            color_variance: self.color_variance,
            flammability: self.flammability,
            hardness: self.hardness,
            value: self.value,
            currency: self.currency,
            residue: self.residue,
            refined_into: self.refined_into,
            boils_into: self.boils_into,
            melts_into: self.melts_into,
            condenses_into: self.condenses_into,
            freezes_into: self.freezes_into,
            burns_into: self.burns_into,
            ignition_point: self.ignition_point,
            compacts_into: self.compacts_into,
            compaction_load: self.compaction_load,
        }
    }
}

/* Reading fields out of a JSON entry. */

pub open spec fn required(e: JsonView, key: &'static str) -> Result<JsonView, DataError> {
    match jv_get(e, key.spec_bytes()) {
        Some(v) => Ok(v),
        None => Err(DataError::MissingField { field: key }),
    }
}

pub open spec fn required_i32(e: JsonView, key: &'static str) -> Result<i32, DataError> {
    match required(e, key) {
        Err(err) => Err(err),
        Ok(v) => match jv_i32(v) {
            Some(x) => Ok(x),
            None => Err(DataError::BadField { field: key }),
        },
    }
}

pub open spec fn required_u8(e: JsonView, key: &'static str) -> Result<u8, DataError> {
    match required(e, key) {
        Err(err) => Err(err),
        Ok(v) => match jv_u8(v) {
            Some(x) => Ok(x),
            None => Err(DataError::BadField { field: key }),
        },
    }
}

pub open spec fn required_fixed(e: JsonView, key: &'static str) -> Result<Fixed, DataError> {
    match required(e, key) {
        Err(err) => Err(err),
        Ok(v) => match jv_fixed(v) {
            Some(x) => Ok(x),
            None => Err(DataError::BadField { field: key }),
        },
    }
}

pub open spec fn required_str(e: JsonView, key: &'static str) -> Result<Seq<u8>, DataError> {
    match required(e, key) {
        Err(err) => Err(err),
        Ok(v) => match jv_str(v) {
            Some(x) => Ok(x),
            None => Err(DataError::BadField { field: key }),
        },
    }
}

/// An optional whole number: absent gives `default`, present must be a whole number.
pub open spec fn optional_i32(e: JsonView, key: &'static str, default: i32) -> Result<i32, DataError> {
    match jv_get(e, key.spec_bytes()) {
        None => Ok(default),
        Some(v) => match jv_i32(v) {
            Some(x) => Ok(x),
            None => Err(DataError::BadField { field: key }),
        },
    }
}

pub fn field<'b, 'a>(entry: &'b Json<'a>, key: &'static str) -> (r: Result<&'b Json<'a>, DataError>)
    ensures
        match r {
            Ok(v) => required(entry@, key) == Ok::<JsonView, DataError>(v@),
            Err(e) => required(entry@, key) == Err::<JsonView, DataError>(e),
        },
{
    match entry.get(key) {
        Some(v) => Ok(v),
        None => Err(DataError::MissingField { field: key }),
    }
}

pub fn field_i32(entry: &Json, key: &'static str) -> (r: Result<i32, DataError>)
    ensures
        r == required_i32(entry@, key),
{
    match field(entry, key) {
        Err(e) => Err(e),
        Ok(v) => match v.as_i32() {
            Some(x) => Ok(x),
            None => Err(DataError::BadField { field: key }),
        },
    }
}

pub fn field_u8(entry: &Json, key: &'static str) -> (r: Result<u8, DataError>)
    ensures
        r == required_u8(entry@, key),
{
    match field(entry, key) {
        Err(e) => Err(e),
        Ok(v) => match v.as_u8() {
            Some(x) => Ok(x),
            None => Err(DataError::BadField { field: key }),
        },
    }
}

pub fn field_fixed(entry: &Json, key: &'static str) -> (r: Result<Fixed, DataError>)
    ensures
        r == required_fixed(entry@, key),
{
    match field(entry, key) {
        Err(e) => Err(e),
        Ok(v) => match v.as_fixed() {
            Some(x) => Ok(x),
            None => Err(DataError::BadField { field: key }),
        },
    }
}

pub fn field_str<'a>(entry: &Json<'a>, key: &'static str) -> (r: Result<&'a str, DataError>)
    ensures
        match r {
            Ok(t) => required_str(entry@, key) == Ok::<Seq<u8>, DataError>(t.spec_bytes()),
            Err(e) => required_str(entry@, key) == Err::<Seq<u8>, DataError>(e),
        },
{
    match field(entry, key) {
        Err(e) => Err(e),
        Ok(v) => match v.as_str() {
            Some(x) => Ok(x),
            None => Err(DataError::BadField { field: key }),
        },
    }
}

pub fn field_i32_or(entry: &Json, key: &'static str, default: i32) -> (r: Result<i32, DataError>)
    ensures
        r == optional_i32(entry@, key, default),
{
    match entry.get(key) {
        None => Ok(default),
        Some(v) => match v.as_i32() {
            Some(x) => Ok(x),
            None => Err(DataError::BadField { field: key }),
        },
    }
}

pub open spec fn hex_value(c: u8) -> Option<u8> {
    if 48 <= c <= 57 {
        Some((c - 48) as u8)
    } else if 97 <= c <= 102 {
        Some((c - 97 + 10) as u8)
    } else if 65 <= c <= 70 {
        Some((c - 65 + 10) as u8)
    } else {
        None
    }
}

/// `"#RRGGBB"`, hex digits of either case.
pub open spec fn color_spec(t: Seq<u8>) -> Result<Seq<u8>, DataError> {
    if t.len() != 7 || t[0] != 35 || exists|k: int| 1 <= k < 7 && (#[trigger] hex_value(t[k])) is None {
        Err(DataError::BadColor)
    } else {
        Ok(seq![
            (hex_value(t[1]).unwrap() * 16 + hex_value(t[2]).unwrap()) as u8,
            (hex_value(t[3]).unwrap() * 16 + hex_value(t[4]).unwrap()) as u8,
            (hex_value(t[5]).unwrap() * 16 + hex_value(t[6]).unwrap()) as u8,
        ])
    }
}

/// The four state names.
pub open spec fn state_spec(t: Seq<u8>) -> Option<State> {
    if t == "solid".spec_bytes() {
        Some(State::Solid)
    } else if t == "powder".spec_bytes() {
        Some(State::Powder)
    } else if t == "liquid".spec_bytes() {
        Some(State::Liquid)
    } else if t == "gas".spec_bytes() {
        Some(State::Gas)
    } else {
        None
    }
}

/// One entry of `elements`, with every name-referencing field left `EMPTY`: fields are
/// checked in the order id, name, state, density, melting_point, boiling_point,
/// thermal_conductivity, color, color_variance, flammability, hardness, and then the
/// optional value, currency, ignitionPoint and compactionLoad.
#[verifier::opaque]
pub open spec fn element_spec(e: JsonView) -> Result<ElementView, DataError> {
    match required_u8(e, "id") {
        Err(err) => Err(err),
        Ok(id) => if id == EMPTY {
            Err(DataError::ReservedId)
        } else {
            match required_str(e, "name") {
                Err(err) => Err(err),
                Ok(name) => if name.len() == 0 {
                    Err(DataError::BadField { field: "name" })
                } else {
                    match required_str(e, "state") {
                        Err(err) => Err(err),
                        Ok(state_text) => match state_spec(state_text) {
                            None => Err(DataError::BadField { field: "state" }),
                            Some(state) => element_values_spec(e, id, name, state),
                        },
                    }
                },
            }
        },
    }
}

#[verifier::opaque]
pub open spec fn element_values_spec(e: JsonView, id: u8, name: Seq<u8>, state: State) -> Result<ElementView, DataError> {
    match required_i32(e, "density") {
        Err(err) => Err(err),
        Ok(density) => match required_i32(e, "melting_point") {
            Err(err) => Err(err),
            Ok(melting_point) => match required_i32(e, "boiling_point") {
                Err(err) => Err(err),
                Ok(boiling_point) => match required_fixed(e, "thermal_conductivity") {
                    Err(err) => Err(err),
                    Ok(thermal_conductivity) => match required_str(e, "color") {
                        Err(err) => Err(err),
                        Ok(color_text) => match color_spec(color_text) {
                            Err(err) => Err(err),
                            Ok(color) => match required_u8(e, "color_variance") {
                                Err(err) => Err(err),
                                Ok(color_variance) => match required_fixed(e, "flammability") {
                                    Err(err) => Err(err),
                                    Ok(flammability) => match required_fixed(e, "hardness") {
                                        Err(err) => Err(err),
                                        Ok(hardness) => match element_optionals_spec(e) {
                                            Err(err) => Err(err),
                                            Ok((value, currency, ignition_point, compaction_load)) => Ok(ElementView {
                                                id,
                                                name,
                                                state,
                                                density,
                                                melting_point,
                                                boiling_point,
                                                thermal_conductivity,
                                                color,
                                                color_variance,
                                                flammability,
                                                hardness,
                                                value,
                                                currency,
                                                residue: EMPTY,
                                                refined_into: EMPTY,
                                                boils_into: EMPTY,
                                                melts_into: EMPTY,
                                                condenses_into: EMPTY,
                                                freezes_into: EMPTY,
                                                burns_into: EMPTY,
                                                ignition_point,
                                                compacts_into: EMPTY,
                                                compaction_load,
                                            }),
                                        },
                                    },
                                },
                            },
                        },
                    },
                },
            },
        },
    }
}

/// `value` (a whole number, at least zero; default 0), `currency` (a boolean; default
/// false), `ignitionPoint` (default `i32::MAX`) and `compactionLoad` (default 0).
pub open spec fn element_optionals_spec(e: JsonView) -> Result<(u32, bool, i32, i32), DataError> {
    let value = match jv_get(e, "value".spec_bytes()) {
        None => Ok(0u32),
        Some(v) => match jv_i32(v) {
            Some(x) => if x >= 0 { Ok(x as u32) } else { Err(DataError::BadField { field: "value" }) },
            None => Err(DataError::BadField { field: "value" }),
        },
    };
    let currency = match jv_get(e, "currency".spec_bytes()) {
        None => Ok(false),
        Some(v) => match jv_bool(v) {
            Some(b) => Ok(b),
            None => Err(DataError::BadField { field: "currency" }),
        },
    };
    match value {
        Err(err) => Err(err),
        Ok(value) => match currency {
            Err(err) => Err(err),
            Ok(currency) => match optional_i32(e, "ignitionPoint", i32::MAX) {
                Err(err) => Err(err),
                Ok(ignition_point) => match optional_i32(e, "compactionLoad", 0) {
                    Err(err) => Err(err),
                    Ok(compaction_load) => Ok((value, currency, ignition_point, compaction_load)),
                },
            },
        },
    }
}

pub(crate) fn parse_state(text: &str) -> (r: Option<State>)
    ensures
        r == state_spec(text.spec_bytes()),
{
    if crate::json::str_eq(text, "solid") {
        Some(State::Solid)
    } else if crate::json::str_eq(text, "powder") {
        Some(State::Powder)
    } else if crate::json::str_eq(text, "liquid") {
        Some(State::Liquid)
    } else if crate::json::str_eq(text, "gas") {
        Some(State::Gas)
    } else {
        None
    }
}

fn parse_optionals(entry: &Json) -> (r: Result<(u32, bool, i32, i32), DataError>)
    ensures
        r == element_optionals_spec(entry@),
{
    let value: u32 = match entry.get("value") {
        None => 0,
        Some(v) => match v.as_i32() {
            Some(x) => {
                if x >= 0 {
                    x as u32
                } else {
                    return Err(DataError::BadField { field: "value" });
                }
            },
            None => {
                return Err(DataError::BadField { field: "value" });
            },
        },
    };
    let currency: bool = match entry.get("currency") {
        None => false,
        Some(v) => match v.as_bool() {
            Some(b) => b,
            None => {
                return Err(DataError::BadField { field: "currency" });
            },
        },
    };
    let ignition_point: i32 = match field_i32_or(entry, "ignitionPoint", i32::MAX) {
        Ok(x) => x,
        Err(e) => {
            return Err(e);
        },
    };
    let compaction_load: i32 = match field_i32_or(entry, "compactionLoad", 0) {
        Ok(x) => x,
        Err(e) => {
            return Err(e);
        },
    };
    Ok((value, currency, ignition_point, compaction_load))
}

/// An entry that reads as an element declares that element's id.
pub proof fn lemma_element_id(e: JsonView)
    requires
        element_spec(e) is Ok,
    ensures
        required_u8(e, "id") == Ok::<u8, DataError>(element_spec(e).unwrap().id),
{
    reveal(element_spec);
    reveal(element_values_spec);
}

/// One entry of `elements`; see `element_spec`.
fn parse_element(entry: &Json) -> (r: Result<Element, DataError>)
    ensures
        match r {
            Ok(el) => element_spec(entry@) == Ok::<ElementView, DataError>(el@),
            Err(e) => element_spec(entry@) == Err::<ElementView, DataError>(e),
        },
{
    reveal(element_spec);
    reveal(element_values_spec);
    let id: u8 = match field_u8(entry, "id") {
        Ok(x) => x,
        Err(e) => {
            return Err(e);
        },
    };
    if id == EMPTY {
        return Err(DataError::ReservedId);
    }
    let name: &str = match field_str(entry, "name") {
        Ok(x) => x,
        Err(e) => {
            return Err(e);
        },
    };
    if name.is_empty() {
        proof {
            vstd::utf8::encode_utf8_valid_utf8(name@);
            assert(name.spec_bytes().len() == 0) by {
                reveal_with_fuel(encode_utf8, 2);
            }
        }
        return Err(DataError::BadField { field: "name" });
    }
    proof {
        assert(name.spec_bytes().len() != 0) by {
            reveal_with_fuel(encode_utf8, 2);
            if name.spec_bytes().len() == 0 {
                vstd::utf8::encode_utf8_decode_utf8(name@);
            }
        }
    }
    let state_text: &str = match field_str(entry, "state") {
        Ok(x) => x,
        Err(e) => {
            return Err(e);
        },
    };
    let state: State = match parse_state(state_text) {
        Some(x) => x,
        None => {
            return Err(DataError::BadField { field: "state" });
        },
    };
    let density: i32 = match field_i32(entry, "density") {
        Ok(x) => x,
        Err(e) => {
            return Err(e);
        },
    };
    let melting_point: i32 = match field_i32(entry, "melting_point") {
        Ok(x) => x,
        Err(e) => {
            return Err(e);
        },
    };
    let boiling_point: i32 = match field_i32(entry, "boiling_point") {
        Ok(x) => x,
        Err(e) => {
            return Err(e);
        },
    };
    let thermal_conductivity: Fixed = match field_fixed(entry, "thermal_conductivity") {
        Ok(x) => x,
        Err(e) => {
            return Err(e);
        },
    };
    let color_text: &str = match field_str(entry, "color") {
        Ok(x) => x,
        Err(e) => {
            return Err(e);
        },
    };
    let color: [u8; 3] = match parse_color(color_text) {
        Ok(x) => x,
        Err(e) => {
            return Err(e);
        },
    };
    let color_variance: u8 = match field_u8(entry, "color_variance") {
        Ok(x) => x,
        Err(e) => {
            return Err(e);
        },
    };
    let flammability: Fixed = match field_fixed(entry, "flammability") {
        Ok(x) => x,
        Err(e) => {
            return Err(e);
        },
    };
    let hardness: Fixed = match field_fixed(entry, "hardness") {
        Ok(x) => x,
        Err(e) => {
            return Err(e);
        },
    };
    let (value, currency, ignition_point, compaction_load) = match parse_optionals(entry) {
        Ok(x) => x,
        Err(e) => {
            return Err(e);
        },
    };
    let owned: String = name.to_owned();
    proof {
        assert(encode_utf8(owned@) == name.spec_bytes());
    }
    Ok(Element {
        id,
        name: owned,
        state,
        density,
        melting_point,
        boiling_point,
        thermal_conductivity,
        color,
        color_variance,
        flammability,
        hardness,
        value,
        currency,
        residue: EMPTY,
        refined_into: EMPTY,
        boils_into: EMPTY,
        melts_into: EMPTY,
        condenses_into: EMPTY,
        freezes_into: EMPTY,
        burns_into: EMPTY,
        ignition_point,
        compacts_into: EMPTY,
        compaction_load,
    })
}

pub open spec fn slots_view(slots: Seq<Option<Element>>) -> Seq<Option<ElementView>> {
    Seq::new(slots.len(), |i: int| match slots[i] {
        Some(e) => Some(e@),
        None => None,
    })
}

/// `slots` extended with empty slots up to length `n`.
pub open spec fn grow_spec<T>(slots: Seq<Option<T>>, n: int) -> Seq<Option<T>> {
    if slots.len() >= n {
        slots
    } else {
        slots + Seq::new((n - slots.len()) as nat, |i: int| None)
    }
}

/// The first pass: every entry parsed and placed at its declared id, in file order.
pub open spec fn place_spec(entries: Seq<JsonView>, i: int, slots: Seq<Option<ElementView>>) -> Result<Seq<Option<ElementView>>, DataError>
    decreases entries.len() - i,
{
    if i < 0 || i >= entries.len() {
        Ok(slots)
    } else {
        match element_spec(entries[i]) {
            Err(e) => Err(e),
            Ok(el) => {
                let grown = grow_spec(slots, el.id as int + 1);
                if grown[el.id as int] is Some {
                    Err(DataError::DuplicateId(el.id))
                } else {
                    place_spec(entries, i + 1, grown.update(el.id as int, Some(el)))
                }
            },
        }
    }
}

/// The keys of the fields that name another element, in the order they are resolved.
pub open spec fn link_key(k: int) -> &'static str {
    if k == 0 {
        "residue"
    } else if k == 1 {
        "refinedInto"
    } else if k == 2 {
        "boilsInto"
    } else if k == 3 {
        "meltsInto"
    } else if k == 4 {
        "condensesInto"
    } else if k == 5 {
        "freezesInto"
    } else if k == 6 {
        "burnsInto"
    } else {
        "compactsInto"
    }
}

pub open spec fn with_link(e: ElementView, k: int, target: u8) -> ElementView {
    if k == 0 {
        ElementView { residue: target, ..e }
    } else if k == 1 {
        ElementView { refined_into: target, ..e }
    } else if k == 2 {
        ElementView { boils_into: target, ..e }
    } else if k == 3 {
        ElementView { melts_into: target, ..e }
    } else if k == 4 {
        ElementView { condenses_into: target, ..e }
    } else if k == 5 {
        ElementView { freezes_into: target, ..e }
    } else if k == 6 {
        ElementView { burns_into: target, ..e }
    } else {
        ElementView { compacts_into: target, ..e }
    }
}

/// The id of the first element, in id order from `i`, with this name.
pub open spec fn first_named(slots: Seq<Option<ElementView>>, name: Seq<u8>, i: int) -> Option<u8>
    decreases slots.len() - i,
{
    if i < 0 || i >= slots.len() {
        None
    } else if slots[i] is Some && slots[i].unwrap().name == name {
        Some(slots[i].unwrap().id)
    } else {
        first_named(slots, name, i + 1)
    }
}

/// Resolves link fields `k..` of one entry, whose element sits at `id`.
pub open spec fn link_entry(entry: JsonView, id: u8, k: int, slots: Seq<Option<ElementView>>) -> Result<Seq<Option<ElementView>>, DataError>
    decreases 8 - k,
{
    if k < 0 || k >= 8 {
        Ok(slots)
    } else {
        let named = match jv_get(entry, link_key(k).spec_bytes()) {
            Some(v) => jv_str(v),
            None => None,
        };
        match named {
            None => link_entry(entry, id, k + 1, slots),
            Some(name) => match first_named(slots, name, 0) {
                None => Err(DataError::BadField { field: link_key(k) }),
                Some(target) => link_entry(
                    entry,
                    id,
                    k + 1,
                    slots.update(id as int, Some(with_link(slots[id as int].unwrap(), k, target))),
                ),
            },
        }
    }
}

/// The second pass: name-referencing fields resolved, entry by entry.
pub open spec fn link_spec(entries: Seq<JsonView>, i: int, slots: Seq<Option<ElementView>>) -> Result<Seq<Option<ElementView>>, DataError>
    decreases entries.len() - i,
{
    if i < 0 || i >= entries.len() {
        Ok(slots)
    } else {
        match required_u8(entries[i], "id") {
            Err(e) => Err(e),
            Ok(id) => match link_entry(entries[i], id, 0, slots) {
                Err(e) => Err(e),
                Ok(linked) => link_spec(entries, i + 1, linked),
            },
        }
    }
}

/// The third pass: anything that burns must have a threshold and a chance.
pub open spec fn burn_check(slots: Seq<Option<ElementView>>, i: int) -> Result<(), DataError>
    decreases slots.len() - i,
{
    if i < 0 || i >= slots.len() {
        Ok(())
    } else if slots[i] is Some && slots[i].unwrap().burns_into != EMPTY {
        if slots[i].unwrap().ignition_point == i32::MAX {
            Err(DataError::BadField { field: "ignitionPoint" })
        } else if slots[i].unwrap().flammability.0 == 0 {
            Err(DataError::BadField { field: "flammability" })
        } else {
            burn_check(slots, i + 1)
        }
    } else {
        burn_check(slots, i + 1)
    }
}

/// The whole loader: parse, place by id, resolve names, check burning.
pub open spec fn table_spec(b: Seq<u8>) -> Result<Seq<Option<ElementView>>, DataError> {
    match json::parse_spec(b) {
        Err(e) => Err(DataError::Json(e)),
        Ok(doc) => {
            let entries = match jv_get(doc, "elements".spec_bytes()) {
                Some(v) => jv_array(v),
                None => None,
            };
            match entries {
                None => Err(DataError::MissingField { field: "elements" }),
                Some(entries) => match place_spec(entries, 0, Seq::empty()) {
                    Err(e) => Err(e),
                    Ok(placed) => if count_some(placed, placed.len() as int) == 0 {
                        Err(DataError::Empty)
                    } else {
                        match link_spec(entries, 0, placed) {
                            Err(e) => Err(e),
                            Ok(linked) => match burn_check(linked, 0) {
                                Err(e) => Err(e),
                                Ok(_) => Ok(linked),
                            },
                        }
                    },
                },
            }
        },
    }
}

/// How many slots hold an element, among the first `n`.
pub open spec fn count_some<T>(slots: Seq<Option<T>>, n: int) -> nat
    decreases n,
{
    if n <= 0 || slots.len() == 0 {
        0
    } else if n > slots.len() {
        count_some(slots, slots.len() as int)
    } else {
        count_some(slots, n - 1) + if slots[n - 1] is Some { 1nat } else { 0nat }
    }
}

/// The defined entries among the first `n` slots, in slot order.
pub open spec fn defined_prefix<T>(slots: Seq<Option<T>>, n: int) -> Seq<T>
    decreases n,
{
    if n <= 0 || n > slots.len() {
        Seq::empty()
    } else {
        match slots[n - 1] {
            Some(v) => defined_prefix(slots, n - 1).push(v),
            None => defined_prefix(slots, n - 1),
        }
    }
}

/// Elements indexed by id.
#[derive(Clone, Debug)]
pub struct ElementTable {
    slots: Vec<Option<Element>>,
}

impl View for ElementTable {
    type V = Seq<Option<ElementView>>;

    closed spec fn view(&self) -> Seq<Option<ElementView>> {
        slots_view(self.slots@)
    }
}

impl Default for ElementTable {
    fn default() -> (r: ElementTable)
        ensures
            r@.len() == 0,
            r.wf(),
    {
        ElementTable::new()
    }
}

pub open spec fn ids_match(slots: Seq<Option<ElementView>>) -> bool {
    &&& slots.len() <= 256
    &&& forall|k: int| 0 <= k < slots.len() && (#[trigger] slots[k]) is Some ==> slots[k].unwrap().id == k
}

impl ElementTable {
    /// Every element sits at the index of its own id.
    pub closed spec fn wf(&self) -> bool {
        ids_match(self@)
    }

    pub proof fn lemma_wf(&self)
        requires
            self.wf(),
        ensures
            ids_match(self@),
    {
    }

    /// A table with no elements in it.
    pub fn new() -> (r: ElementTable)
        ensures
            r@ == Seq::<Option<ElementView>>::empty(),
            r.wf(),
    {
        ElementTable { slots: Vec::new() }
    }

    /// Reads the `elements` array of a data file; see `table_spec`.
    #[verifier::loop_isolation(false)]
    pub fn from_json(source: &str) -> (r: Result<ElementTable, DataError>)
        ensures
            match r {
                Ok(t) => table_spec(source.spec_bytes()) == Ok::<Seq<Option<ElementView>>, DataError>(t@) && t.wf(),
                Err(e) => table_spec(source.spec_bytes()) == Err::<Seq<Option<ElementView>>, DataError>(e),
            },
    {
        let document: Json = match json::parse(source) {
            Ok(d) => d,
            Err(e) => {
                return Err(DataError::Json(e));
            },
        };
        let entries: &[Json] = match document.get("elements") {
            Some(v) => match v.as_array() {
                Some(items) => items,
                None => {
                    return Err(DataError::MissingField { field: "elements" });
                },
            },
            None => {
                return Err(DataError::MissingField { field: "elements" });
            },
        };
        let ghost es = crate::json::items_view(entries@);
        proof {
            crate::json::lemma_items_view_len(entries@);
            let doc = crate::json::parse_spec(source.spec_bytes()).unwrap();
            assert(doc == document@);
            assert(jv_get(doc, "elements".spec_bytes()) is Some);
            assert(jv_array(jv_get(doc, "elements".spec_bytes()).unwrap()) == Some(es));
        }
        let slots: Vec<Option<Element>> = match place_all(entries) {
            Ok(s) => s,
            Err(e) => {
                return Err(e);
            },
        };
        let mut count: usize = 0;
        let mut k: usize = 0;
        while k < slots.len()
            invariant
                0 <= k <= slots@.len(),
                count == count_some(slots_view(slots@), k as int),
                count <= k,
            decreases slots@.len() - k,
        {
            if slots[k].is_some() {
                count = count + 1;
            }
            k = k + 1;
        }
        if count == 0 {
            return Err(DataError::Empty);
        }
        let ghost placed = slots_view(slots@);
        proof {
            assert(place_spec(es, 0, Seq::empty()) == Ok::<Seq<Option<ElementView>>, DataError>(placed));
        }
        let linked: Vec<Option<Element>> = match link_all(entries, slots) {
            Ok(s) => s,
            Err(e) => {
                proof {
                    assert(link_spec(es, 0, placed) == Err::<Seq<Option<ElementView>>, DataError>(e));
                    assert(table_spec(source.spec_bytes()) == Err::<Seq<Option<ElementView>>, DataError>(e));
                }
                return Err(e);
            },
        };
        match check_burning(&linked) {
            Ok(()) => {},
            Err(e) => {
                proof {
                    assert(link_spec(es, 0, placed) == Ok::<Seq<Option<ElementView>>, DataError>(slots_view(linked@)));
                    assert(table_spec(source.spec_bytes()) == Err::<Seq<Option<ElementView>>, DataError>(e));
                }
                return Err(e);
            },
        }
        Ok(ElementTable { slots: linked })
    }

    pub fn get(&self, id: ElementId) -> (r: Option<&Element>)
        ensures
            match r {
                Some(e) => (id as int) < self@.len() && self@[id as int] == Some(e@) && self.wf() ==> e.id == id,
                None => id as int >= self@.len() || self@[id as int] is None,
            },
            r is Some ==> (id as int) < self@.len() && self@[id as int] == Some(r.unwrap()@),
    {
        if (id as usize) < self.slots.len() {
            match &self.slots[id as usize] {
                Some(e) => Some(e),
                None => None,
            }
        } else {
            None
        }
    }

    /// Looks an element up by name: the lowest id with that name.
    pub fn id_of(&self, name: &str) -> (r: Option<ElementId>)
        ensures
            r == first_named(self@, name.spec_bytes(), 0),
    {
        find_named(&self.slots, name)
    }

    /// Every element, in id order.
    pub fn iter(&self) -> (r: Vec<&Element>)
        ensures
            r@.len() == count_some(self@, self@.len() as int),
            r@.map_values(|e: &Element| e@) == defined_prefix(self@, self@.len() as int),
    {
        let mut out: Vec<&Element> = Vec::new();
        let mut k: usize = 0;
        proof {
            assert(out@.map_values(|e: &Element| e@) =~= defined_prefix(self@, 0));
        }
        while k < self.slots.len()
            invariant
                0 <= k <= self.slots@.len(),
                out@.len() == count_some(self@, k as int),
                out@.map_values(|e: &Element| e@) == defined_prefix(self@, k as int),
                self@ == slots_view(self.slots@),
            decreases self.slots@.len() - k,
        {
            let ghost before = out@;
            match &self.slots[k] {
                Some(e) => {
                    out.push(e);
                    proof {
                        assert(out@.map_values(|e: &Element| e@) =~= before.map_values(|e: &Element| e@).push(e@));
                    }
                },
                None => {},
            }
            k = k + 1;
        }
        out
    }

    pub fn len(&self) -> (r: usize)
        ensures
            r == count_some(self@, self@.len() as int),
    {
        let mut count: usize = 0;
        let mut k: usize = 0;
        while k < self.slots.len()
            invariant
                0 <= k <= self.slots@.len(),
                count == count_some(self@, k as int),
                count <= k,
                self@ == slots_view(self.slots@),
            decreases self.slots@.len() - k,
        {
            if self.slots[k].is_some() {
                count = count + 1;
            }
            k = k + 1;
        }
        count
    }

    pub fn is_empty(&self) -> (r: bool)
        ensures
            r == (count_some(self@, self@.len() as int) == 0),
    {
        self.len() == 0
    }
}

fn find_named(slots: &Vec<Option<Element>>, name: &str) -> (r: Option<u8>)
    ensures
        r == first_named(slots_view(slots@), name.spec_bytes(), 0),
{
    let ghost v = slots_view(slots@);
    let mut k: usize = 0;
    while k < slots.len()
        invariant
            v == slots_view(slots@),
            0 <= k <= slots@.len(),
            first_named(v, name.spec_bytes(), 0) == first_named(v, name.spec_bytes(), k as int),
        decreases slots@.len() - k,
    {
        match &slots[k] {
            Some(e) => {
                if crate::json::str_eq(e.name.as_str(), name) {
                    return Some(e.id);
                }
            },
            None => {},
        }
        k = k + 1;
    }
    None
}

fn link_key_exec(k: usize) -> (r: &'static str)
    ensures
        r == link_key(k as int),
{
    if k == 0 {
        "residue"
    } else if k == 1 {
        "refinedInto"
    } else if k == 2 {
        "boilsInto"
    } else if k == 3 {
        "meltsInto"
    } else if k == 4 {
        "condensesInto"
    } else if k == 5 {
        "freezesInto"
    } else if k == 6 {
        "burnsInto"
    } else {
        "compactsInto"
    }
}

/// The first pass of `from_json`.
fn place_all(entries: &[Json]) -> (r: Result<Vec<Option<Element>>, DataError>)
    ensures
        match r {
            Ok(s) => place_spec(crate::json::items_view(entries@), 0, Seq::empty()) == Ok::<Seq<Option<ElementView>>, DataError>(slots_view(s@))
                && ids_match(slots_view(s@))
                && forall|j: int| 0 <= j < entries@.len() ==> match element_spec(#[trigger] crate::json::items_view(entries@)[j]) {
                    Ok(el) => (el.id as int) < s@.len() && s@[el.id as int] is Some,
                    Err(_) => false,
                },
            Err(e) => place_spec(crate::json::items_view(entries@), 0, Seq::empty()) == Err::<Seq<Option<ElementView>>, DataError>(e),
        },
{
    let ghost es = crate::json::items_view(entries@);
    proof {
        crate::json::lemma_items_view_len(entries@);
        assert(slots_view(Seq::<Option<Element>>::empty()) =~= Seq::<Option<ElementView>>::empty());
    }
    let mut slots: Vec<Option<Element>> = Vec::new();
    let mut i: usize = 0;
    while i < entries.len()
        invariant
            es == crate::json::items_view(entries@),
            es.len() == entries@.len(),
            0 <= i <= entries@.len(),
            place_spec(es, 0, Seq::empty()) == place_spec(es, i as int, slots_view(slots@)),
            ids_match(slots_view(slots@)),
            forall|j: int| 0 <= j < i ==> match element_spec(#[trigger] es[j]) {
                Ok(el) => (el.id as int) < slots@.len() && slots@[el.id as int] is Some,
                Err(_) => false,
            },
        decreases entries@.len() - i,
    {
        proof {
            crate::json::lemma_items_view_index(entries@, i as int);
        }
        let element: Element = match parse_element(&entries[i]) {
            Ok(e) => e,
            Err(e) => {
                return Err(e);
            },
        };
        let index: usize = element.id as usize;
        let ghost pre = slots@;
        let ghost before = slots_view(slots@);
        while slots.len() <= index
            invariant
                slots@.len() == before.len() || slots@.len() <= index + 1,
                slots@.len() >= before.len(),
                slots_view(slots@).subrange(0, before.len() as int) == before,
                forall|k: int| before.len() <= k < slots@.len() ==> (#[trigger] slots@[k]) is None,
            decreases index + 1 - slots@.len(),
        {
            slots.push(None);
        }
        proof {
            assert(slots_view(slots@) =~= grow_spec(before, index as int + 1));
        }
        if slots[index].is_some() {
            return Err(DataError::DuplicateId(element.id));
        }
        let ghost grown = slots@;
        slots.set(index, Some(element));
        proof {
            assert(slots_view(slots@) =~= grow_spec(before, index as int + 1).update(index as int, Some(element@)));
            assert forall|j: int| 0 <= j < i + 1 implies match element_spec(#[trigger] es[j]) {
                Ok(el) => (el.id as int) < slots@.len() && slots@[el.id as int] is Some,
                Err(_) => false,
            } by {
                if j < i {
                    let el = element_spec(es[j]).unwrap();
                    assert(pre[el.id as int] is Some);
                    assert(before[el.id as int] is Some);
                    assert(slots_view(grown).subrange(0, before.len() as int)[el.id as int] is Some);
                    assert(grown[el.id as int] is Some);
                }
            }
        }
        i = i + 1;
    }
    Ok(slots)
}

/// The second pass of `from_json`.
#[verifier::loop_isolation(false)]
fn link_all(entries: &[Json], initial: Vec<Option<Element>>) -> (r: Result<Vec<Option<Element>>, DataError>)
    requires
        ids_match(slots_view(initial@)),
        forall|j: int| 0 <= j < entries@.len() ==> match element_spec(#[trigger] crate::json::items_view(entries@)[j]) {
            Ok(el) => (el.id as int) < initial@.len() && initial@[el.id as int] is Some,
            Err(_) => false,
        },
    ensures
        match r {
            Ok(s) => link_spec(crate::json::items_view(entries@), 0, slots_view(initial@)) == Ok::<Seq<Option<ElementView>>, DataError>(slots_view(s@))
                && ids_match(slots_view(s@)),
            Err(e) => link_spec(crate::json::items_view(entries@), 0, slots_view(initial@)) == Err::<Seq<Option<ElementView>>, DataError>(e),
        },
{
    let ghost es = crate::json::items_view(entries@);
    let ghost start = slots_view(initial@);
    proof {
        crate::json::lemma_items_view_len(entries@);
    }
    let mut slots = initial;
    let mut i: usize = 0;
    while i < entries.len()
        invariant
            es == crate::json::items_view(entries@),
            es.len() == entries@.len(),
            0 <= i <= entries@.len(),
            link_spec(es, 0, start) == link_spec(es, i as int, slots_view(slots@)),
            ids_match(slots_view(slots@)),
            forall|j: int| 0 <= j < entries@.len() ==> match element_spec(#[trigger] es[j]) {
                Ok(el) => (el.id as int) < slots@.len() && slots@[el.id as int] is Some,
                Err(_) => false,
            },
        decreases entries@.len() - i,
    {
        proof {
            crate::json::lemma_items_view_index(entries@, i as int);
            assert(element_spec(es[i as int]) is Ok);
            lemma_element_id(es[i as int]);
        }
        let entry: &Json = &entries[i];
        let id: u8 = match field_u8(entry, "id") {
            Ok(x) => x,
            Err(e) => {
                return Err(e);
            },
        };
        let ghost entry_start = slots_view(slots@);
        let mut k: usize = 0;
        while k < 8
            invariant
                es == crate::json::items_view(entries@),
                es.len() == entries@.len(),
                0 <= i < entries@.len(),
                entry@ == es[i as int],
                0 <= k <= 8,
                (id as int) < slots@.len(),
                slots@[id as int] is Some,
                link_entry(es[i as int], id, 0, entry_start) == link_entry(es[i as int], id, k as int, slots_view(slots@)),
                link_spec(es, 0, start) == link_spec(es, i as int, entry_start),
                required_u8(es[i as int], "id") == Ok::<u8, DataError>(id),
                ids_match(slots_view(slots@)),
                slots@.len() == entry_start.len(),
                forall|j: int| 0 <= j < entries@.len() ==> match element_spec(#[trigger] es[j]) {
                    Ok(el) => (el.id as int) < slots@.len() && slots@[el.id as int] is Some,
                    Err(_) => false,
                },
            decreases 8 - k,
        {
            let key: &'static str = link_key_exec(k);
            let named: Option<&str> = match entry.get(key) {
                Some(v) => v.as_str(),
                None => None,
            };
            match named {
                None => {},
                Some(name) => {
                    let target: u8 = match find_named(&slots, name) {
                        Some(t) => t,
                        None => {
                            proof {
                                assert(link_entry(es[i as int], id, k as int, slots_view(slots@)) == Err::<Seq<Option<ElementView>>, DataError>(DataError::BadField { field: key }));
                                assert(link_spec(es, i as int, entry_start) == link_entry(es[i as int], id, 0, entry_start));
                                assert(link_spec(es, 0, start) == Err::<Seq<Option<ElementView>>, DataError>(DataError::BadField { field: key }));
                            }
                            return Err(DataError::BadField { field: key });
                        },
                    };
                    let ghost before = slots_view(slots@);
                    let taken: Option<Element> = slots.remove(id as usize);
                    let mut element: Element = taken.unwrap();
                    let ghost old_el = element@;
                    if k == 0 {
                        element.residue = target;
                    } else if k == 1 {
                        element.refined_into = target;
                    } else if k == 2 {
                        element.boils_into = target;
                    } else if k == 3 {
                        element.melts_into = target;
                    } else if k == 4 {
                        element.condenses_into = target;
                    } else if k == 5 {
                        element.freezes_into = target;
                    } else if k == 6 {
                        element.burns_into = target;
                    } else {
                        element.compacts_into = target;
                    }
                    proof {
                        assert(element@ == with_link(old_el, k as int, target));
                    }
                    slots.insert(id as usize, Some(element));
                    proof {
                        assert(slots_view(slots@) =~= before.update(id as int, Some(with_link(before[id as int].unwrap(), k as int, target))));
                    }
                },
            }
            k = k + 1;
        }
        i = i + 1;
    }
    Ok(slots)
}

/// The third pass of `from_json`.
fn check_burning(slots: &Vec<Option<Element>>) -> (r: Result<(), DataError>)
    ensures
        r == burn_check(slots_view(slots@), 0),
{
    let ghost v = slots_view(slots@);
    let mut k: usize = 0;
    while k < slots.len()
        invariant
            v == slots_view(slots@),
            0 <= k <= slots@.len(),
            burn_check(v, 0) == burn_check(v, k as int),
        decreases slots@.len() - k,
    {
        match &slots[k] {
            Some(e) => {
                if e.burns_into != EMPTY {
                    if e.ignition_point == i32::MAX {
                        return Err(DataError::BadField { field: "ignitionPoint" });
                    }
                    if e.flammability.0 == 0 {
                        return Err(DataError::BadField { field: "flammability" });
                    }
                }
            },
            None => {},
        }
        k = k + 1;
    }
    Ok(())
}

fn hex_digit(c: u8) -> (r: Option<u8>)
    ensures
        r == hex_value(c),
{
    if 48u8 <= c && c <= 57u8 {
        Some(c - 48u8)
    } else if 97u8 <= c && c <= 102u8 {
        Some(c - 97u8 + 10u8)
    } else if 65u8 <= c && c <= 70u8 {
        Some(c - 65u8 + 10u8)
    } else {
        None
    }
}

#[verifier::loop_isolation(false)]
fn parse_color(text: &str) -> (r: Result<[u8; 3], DataError>)
    ensures
        match r {
            Ok(c) => color_spec(text.spec_bytes()) == Ok::<Seq<u8>, DataError>(c@),
            Err(e) => color_spec(text.spec_bytes()) == Err::<Seq<u8>, DataError>(e),
        },
{
    let t: &[u8] = text.as_bytes();
    if t.len() != 7 || t[0] != 35u8 {
        return Err(DataError::BadColor);
    }
    let mut digits: [u8; 6] = [0u8; 6];
    let mut k: usize = 1;
    while k < 7
        invariant
            t@.len() == 7,
            1 <= k <= 7,
            forall|j: int| 0 <= j < k - 1 ==> hex_value(t@[j + 1]) == Some(#[trigger] digits@[j]),
            forall|j: int| 0 <= j < 6 ==> #[trigger] digits@[j] < 16,
        decreases 7 - k,
    {
        match hex_digit(t[k]) {
            Some(d) => {
                digits[k - 1] = d;
            },
            None => {
                proof {
                    assert(hex_value(t@[k as int]) is None);
                }
                return Err(DataError::BadColor);
            },
        }
        k = k + 1;
    }
    let color: [u8; 3] = [digits[0] * 16 + digits[1], digits[2] * 16 + digits[3], digits[4] * 16 + digits[5]];
    proof {
        assert(hex_value(t@[1]) == Some(digits@[0]));
        assert(hex_value(t@[2]) == Some(digits@[1]));
        assert(hex_value(t@[3]) == Some(digits@[2]));
        assert(hex_value(t@[4]) == Some(digits@[3]));
        assert(hex_value(t@[5]) == Some(digits@[4]));
        assert(hex_value(t@[6]) == Some(digits@[5]));
        assert(color@ =~= seq![
            (hex_value(t@[1]).unwrap() * 16 + hex_value(t@[2]).unwrap()) as u8,
            (hex_value(t@[3]).unwrap() * 16 + hex_value(t@[4]).unwrap()) as u8,
            (hex_value(t@[5]).unwrap() * 16 + hex_value(t@[6]).unwrap()) as u8,
        ]);
    }
    Ok(color)
}

} // verus!
