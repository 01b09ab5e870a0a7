//! Machine sprites, read from the `sprites` lists of the entity data.
//!
//! Art is data: a machine's look is edited in the data file, never in code. A sprite is
//! chosen by the first rule that matches, so rules are ordered most specific first.
//! Matching on the *state* of the element a machine handles is the useful part: a new
//! liquid gets the tank silhouette without anyone drawing anything, while an `element`
//! rule can still single one out.

use vstd::prelude::*;
use crate::chunk::TILE_CELLS;
use crate::elements::{parse_state, state_spec, DataError, State};
use crate::entities::{owned, EntityKind};
use crate::json::{self, jv_array, jv_get, jv_i32, jv_str, jv_u8, Json, JsonView};
use vstd::string::StringSliceAdditionalSpecFns;
use vstd::utf8::encode_utf8;

verus! {

/// A sprite is as wide and tall as a tile.
pub const SPRITE_SIZE: usize = TILE_CELLS as usize;

/// How many bytes one frame holds.
pub open spec fn frame_len() -> int {
    SPRITE_SIZE as int * SPRITE_SIZE as int
}

/// What each character in a pixel map means. Roles rather than colours, so one sprite
/// serves every element by being tinted at draw time.
#[derive(Clone, Copy, PartialEq, Eq, Structural, Debug)]
pub enum Ink {
    /// Transparent: the world shows through.
    Clear,
    Shell,
    ShellDark,
    Trim,
    /// The opening, which takes the colour of whatever is being handled.
    Mouth,
}

/// `#` shell, `=` dark shell, `'` trim, `o` mouth; anything else is transparent.
pub open spec fn ink_spec(character: u8) -> Ink {
    if character == 35 {
        Ink::Shell
    } else if character == 61 {
        Ink::ShellDark
    } else if character == 39 {
        Ink::Trim
    } else if character == 111 {
        Ink::Mouth
    } else {
        Ink::Clear
    }
}

fn ink_of(character: u8) -> (r: Ink)
    ensures
        r == ink_spec(character),
{
    if character == 35 {
        Ink::Shell
    } else if character == 61 {
        Ink::ShellDark
    } else if character == 39 {
        Ink::Trim
    } else if character == 111 {
        Ink::Mouth
    } else {
        Ink::Clear
    }
}

/// The colour each ink is drawn in. The casing is neutral so machines read as built
/// rather than as material; only the opening takes the element's colour.
pub open spec fn colour_spec(ink: Ink, element_colour: Seq<u8>) -> Option<Seq<u8>> {
    match ink {
        Ink::Clear => None,
        Ink::Shell => Some(seq![0x6Bu8, 0x69u8, 0x63u8]),
        Ink::ShellDark => Some(seq![0x3Au8, 0x39u8, 0x36u8]),
        Ink::Trim => Some(seq![0x8Bu8, 0x89u8, 0x82u8]),
        Ink::Mouth => Some(element_colour),
    }
}

pub fn colour_of(ink: Ink, element_colour: [u8; 3]) -> (r: Option<[u8; 3]>)
    ensures
        match r {
            Some(c) => colour_spec(ink, element_colour@) == Some(c@),
            None => colour_spec(ink, element_colour@) is None,
        },
{
    match ink {
        Ink::Clear => None,
        Ink::Shell => {
            let c: [u8; 3] = [0x6B, 0x69, 0x63];
            assert(c@ =~= seq![0x6Bu8, 0x69u8, 0x63u8]);
            Some(c)
        },
        Ink::ShellDark => {
            let c: [u8; 3] = [0x3A, 0x39, 0x36];
            assert(c@ =~= seq![0x3Au8, 0x39u8, 0x36u8]);
            Some(c)
        },
        Ink::Trim => {
            let c: [u8; 3] = [0x8B, 0x89, 0x82];
            assert(c@ =~= seq![0x8Bu8, 0x89u8, 0x82u8]);
            Some(c)
        },
        Ink::Mouth => Some(element_colour),
    }
}

/// Whether a machine is working, has backed up, or has been switched off.
#[derive(Clone, Copy, PartialEq, Eq, Structural, Debug)]
pub enum Status {
    Running,
    Blocked,
    /// Switched off by the player. Distinct from `Blocked` on purpose: blocked is the
    /// factory telling you something is wrong, off is you telling the factory.
    Disabled,
}

/// The ink at one position of a pixel map; outside the sprite there is none.
pub open spec fn ink_at_spec(pixels: Seq<u8>, x: int, y: int) -> Ink {
    if x >= SPRITE_SIZE || y >= SPRITE_SIZE {
        Ink::Clear
    } else {
        ink_spec(pixels[y * SPRITE_SIZE + x])
    }
}

pub fn ink_at(pixels: &[u8], x: usize, y: usize) -> (r: Ink)
    requires
        x < SPRITE_SIZE && y < SPRITE_SIZE ==> y * SPRITE_SIZE + x < pixels@.len(),
    ensures
        r == ink_at_spec(pixels@, x as int, y as int),
{
    if x >= SPRITE_SIZE || y >= SPRITE_SIZE {
        return Ink::Clear;
    }
    proof {
        assert(SPRITE_SIZE == 9);
        assert(y * 9 + x < 81) by (nonlinear_arith)
            requires
                x < 9,
                y < 9,
        ;
    }
    ink_of(pixels[y * SPRITE_SIZE + x])
}

/// One sprite rule as its conditions and frames. A condition that is `None` matches
/// anything.
pub struct RuleView {
    pub element: Option<Seq<u8>>,
    pub element_state: Option<State>,
    pub status: Option<Status>,
    /// Which row of a multi-tile footprint this is art for, counting from the top.
    pub row: Option<u32>,
    /// One or more pixel maps; more than one is animation.
    pub frames: Seq<Seq<u8>>,
}

#[derive(Clone, Debug)]
struct Rule {
    element: Option<String>,
    element_state: Option<State>,
    status: Option<Status>,
    row: Option<u32>,
    frames: Vec<Vec<u8>>,
}

spec fn rule_view(r: Rule) -> RuleView {
    RuleView {
        element: match r.element {
            Some(s) => Some(encode_utf8(s@)),
            None => None,
        },
        element_state: r.element_state,
        status: r.status,
        row: r.row,
        frames: r.frames@.map_values(|f: Vec<u8>| f@),
    }
}

/// Every condition of the rule holds of what is being drawn.
pub open spec fn matches_spec(rule: RuleView, element: Seq<u8>, element_state: Option<State>, status: Status, row: u32) -> bool {
    &&& (rule.element is None || rule.element == Some(element))
    &&& (rule.element_state is None || element_state == rule.element_state)
    &&& (rule.status is None || rule.status == Some(status))
    &&& (rule.row is None || rule.row == Some(row))
}

impl Rule {
    fn matches(&self, element: &str, element_state: Option<State>, status: Status, row: u32) -> (r: bool)
        ensures
            r == matches_spec(rule_view(*self), element.spec_bytes(), element_state, status, row),
    {
        let element_ok = match &self.element {
            Some(want) => json::str_eq(want.as_str(), element),
            None => true,
        };
        let state_ok = match self.element_state {
            Some(want) => match element_state {
                Some(have) => have == want,
                None => false,
            },
            None => true,
        };
        let status_ok = match self.status {
            Some(want) => want == status,
            None => true,
        };
        let row_ok = match self.row {
            Some(want) => want == row,
            None => true,
        };
        element_ok && state_ok && status_ok && row_ok
    }
}

/// The error every malformed pixel map gives.
pub open spec fn bad_pixels() -> DataError {
    DataError::BadField { field: "pixels" }
}

/// Rows `i..` of one frame appended to `acc`: each must be a string exactly one
/// sprite wide, since a short or long row would silently shear the art.
pub open spec fn frame_rows_spec(rows: Seq<JsonView>, i: int, acc: Seq<u8>) -> Result<Seq<u8>, DataError>
    decreases rows.len() - i,
{
    if i < 0 || i >= rows.len() {
        Ok(acc)
    } else {
        match jv_str(rows[i]) {
            None => Err(bad_pixels()),
            Some(line) => if line.len() != SPRITE_SIZE {
                Err(bad_pixels())
            } else {
                frame_rows_spec(rows, i + 1, acc + line)
            },
        }
    }
}

/// One frame: exactly one sprite's height of rows, read row-major.
pub open spec fn frame_spec(rows: Seq<JsonView>) -> Result<Seq<u8>, DataError> {
    if rows.len() != SPRITE_SIZE {
        Err(bad_pixels())
    } else {
        frame_rows_spec(rows, 0, Seq::empty())
    }
}

/// Frames `i..` of an animation appended to `acc`.
pub open spec fn animation_spec(outer: Seq<JsonView>, i: int, acc: Seq<Seq<u8>>) -> Result<Seq<Seq<u8>>, DataError>
    decreases outer.len() - i,
{
    if i < 0 || i >= outer.len() {
        Ok(acc)
    } else {
        match jv_array(outer[i]) {
            None => Err(bad_pixels()),
            Some(rows) => match frame_spec(rows) {
                Err(e) => Err(e),
                Ok(f) => animation_spec(outer, i + 1, acc.push(f)),
            },
        }
    }
}

/// A single frame is an array of row strings; an animation is an array of those, told
/// apart by whether the first element is itself an array.
pub open spec fn frames_spec(outer: Seq<JsonView>) -> Result<Seq<Seq<u8>>, DataError> {
    if outer.len() > 0 && jv_array(outer[0]) is Some {
        animation_spec(outer, 0, Seq::empty())
    } else {
        match frame_spec(outer) {
            Err(e) => Err(e),
            Ok(f) => Ok(seq![f]),
        }
    }
}

/// A member of the rule's `when` object.
pub open spec fn when_field(sprite: JsonView, field: Seq<u8>) -> Option<JsonView> {
    match jv_get(sprite, "when".spec_bytes()) {
        Some(when) => jv_get(when, field),
        None => None,
    }
}

/// A string member of `when`; one of another type counts as absent.
pub open spec fn when_text(sprite: JsonView, field: Seq<u8>) -> Option<Seq<u8>> {
    match when_field(sprite, field) {
        Some(v) => jv_str(v),
        None => None,
    }
}

pub open spec fn when_state(sprite: JsonView) -> Result<Option<State>, DataError> {
    match when_text(sprite, "elementState".spec_bytes()) {
        Some(name) => match state_spec(name) {
            Some(s) => Ok(Some(s)),
            None => Err(DataError::BadField { field: "elementState" }),
        },
        None => Ok(None),
    }
}

pub open spec fn when_status(sprite: JsonView) -> Result<Option<Status>, DataError> {
    match when_text(sprite, "status".spec_bytes()) {
        Some(t) => if t == "running".spec_bytes() {
            Ok(Some(Status::Running))
        } else if t == "blocked".spec_bytes() {
            Ok(Some(Status::Blocked))
        } else if t == "disabled".spec_bytes() {
            Ok(Some(Status::Disabled))
        } else {
            Err(DataError::BadField { field: "status" })
        },
        None => Ok(None),
    }
}

/// A row must be a whole number, not negative.
pub open spec fn when_row(sprite: JsonView) -> Result<Option<u32>, DataError> {
    match when_field(sprite, "row".spec_bytes()) {
        Some(v) => match jv_i32(v) {
            Some(x) => if x >= 0 {
                Ok(Some(x as u32))
            } else {
                Err(DataError::BadField { field: "row" })
            },
            None => Err(DataError::BadField { field: "row" }),
        },
        None => Ok(None),
    }
}

/// One entry of a `sprites` list: its pixels first, then the conditions of its
/// `when`, in the order elementState, status, row. An absent `when` matches everything,
/// which is how a fallback is written.
pub open spec fn rule_spec(sprite: JsonView) -> Result<RuleView, DataError> {
    match jv_get(sprite, "pixels".spec_bytes()) {
        None => Err(DataError::MissingField { field: "pixels" }),
        Some(p) => match jv_array(p) {
            None => Err(DataError::MissingField { field: "pixels" }),
            Some(outer) => match frames_spec(outer) {
                Err(e) => Err(e),
                Ok(frames) => match when_state(sprite) {
                    Err(e) => Err(e),
                    Ok(element_state) => match when_status(sprite) {
                        Err(e) => Err(e),
                        Ok(status) => match when_row(sprite) {
                            Err(e) => Err(e),
                            Ok(row) => Ok(RuleView {
                                element: when_text(sprite, "element".spec_bytes()),
                                element_state,
                                status,
                                row,
                                frames,
                            }),
                        },
                    },
                },
            },
        },
    }
}

/// Every frame of a rule is one whole sprite, and there is at least one.
pub open spec fn frames_ok(frames: Seq<Seq<u8>>) -> bool {
    frames.len() > 0 && forall|k: int| 0 <= k < frames.len() ==> (#[trigger] frames[k]).len() == frame_len()
}

fn parse_frame(rows: &[Json]) -> (r: Result<Vec<u8>, DataError>)
    ensures
        match r {
            Ok(p) => frame_spec(json::items_view(rows@)) == Ok::<Seq<u8>, DataError>(p@) && p@.len() == frame_len(),
            Err(e) => frame_spec(json::items_view(rows@)) == Err::<Seq<u8>, DataError>(e),
        },
{
    let ghost rv = json::items_view(rows@);
    proof {
        json::lemma_items_view_len(rows@);
    }
    if rows.len() != SPRITE_SIZE {
        return Err(DataError::BadField { field: "pixels" });
    }
    let mut pixels: Vec<u8> = Vec::new();
    let mut i: usize = 0;
    while i < rows.len()
        invariant
            rv == json::items_view(rows@),
            rv.len() == rows@.len(),
            rows@.len() == SPRITE_SIZE,
            0 <= i <= rows@.len(),
            pixels@.len() == i * SPRITE_SIZE,
            frame_spec(rv) == frame_rows_spec(rv, i as int, pixels@),
        decreases rows@.len() - i,
    {
        proof {
            json::lemma_items_view_index(rows@, i as int);
        }
        let line: &str = match rows[i].as_str() {
            Some(t) => t,
            None => {
                return Err(DataError::BadField { field: "pixels" });
            },
        };
        let bytes: &[u8] = line.as_bytes();
        if bytes.len() != SPRITE_SIZE {
            return Err(DataError::BadField { field: "pixels" });
        }
        let ghost before = pixels@;
        let mut j: usize = 0;
        while j < bytes.len()
            invariant
                0 <= j <= bytes@.len(),
                bytes@.len() == SPRITE_SIZE,
                pixels@ == before + bytes@.subrange(0, j as int),
            decreases bytes@.len() - j,
        {
            pixels.push(bytes[j]);
            proof {
                assert(bytes@.subrange(0, j as int + 1) =~= bytes@.subrange(0, j as int).push(bytes@[j as int]));
            }
            j = j + 1;
        }
        proof {
            assert(bytes@.subrange(0, j as int) =~= bytes@);
            assert((i + 1) * SPRITE_SIZE == i * SPRITE_SIZE + SPRITE_SIZE) by (nonlinear_arith);
        }
        i = i + 1;
    }
    proof {
        assert(SPRITE_SIZE * SPRITE_SIZE == frame_len());
    }
    Ok(pixels)
}

pub open spec fn frames_view(frames: Seq<Vec<u8>>) -> Seq<Seq<u8>> {
    frames.map_values(|f: Vec<u8>| f@)
}

fn parse_frames(outer: &[Json]) -> (r: Result<Vec<Vec<u8>>, DataError>)
    ensures
        match r {
            Ok(fs) => frames_spec(json::items_view(outer@)) == Ok::<Seq<Seq<u8>>, DataError>(frames_view(fs@)) && frames_ok(frames_view(fs@)),
            Err(e) => frames_spec(json::items_view(outer@)) == Err::<Seq<Seq<u8>>, DataError>(e),
        },
{
    let ghost ov = json::items_view(outer@);
    proof {
        json::lemma_items_view_len(outer@);
    }
    let animated: bool = if outer.len() > 0 {
        proof {
            json::lemma_items_view_index(outer@, 0);
        }
        match outer[0].as_array() {
            Some(_) => true,
            None => false,
        }
    } else {
        false
    };
    let mut frames: Vec<Vec<u8>> = Vec::new();
    if !animated {
        let f = match parse_frame(outer) {
            Ok(f) => f,
            Err(e) => {
                return Err(e);
            },
        };
        frames.push(f);
        proof {
            assert(frames_view(frames@) =~= seq![f@]);
        }
        return Ok(frames);
    }
    proof {
        assert(frames_view(frames@) =~= Seq::<Seq<u8>>::empty());
    }
    let mut i: usize = 0;
    while i < outer.len()
        invariant
            ov == json::items_view(outer@),
            ov.len() == outer@.len(),
            outer@.len() > 0,
            0 <= i <= outer@.len(),
            frames@.len() == i,
            frames_spec(ov) == animation_spec(ov, i as int, frames_view(frames@)),
            forall|k: int| 0 <= k < frames@.len() ==> (#[trigger] frames@[k])@.len() == frame_len(),
        decreases outer@.len() - i,
    {
        proof {
            json::lemma_items_view_index(outer@, i as int);
        }
        let rows: &[Json] = match outer[i].as_array() {
            Some(rows) => rows,
            None => {
                return Err(DataError::BadField { field: "pixels" });
            },
        };
        let f = match parse_frame(rows) {
            Ok(f) => f,
            Err(e) => {
                return Err(e);
            },
        };
        let ghost before = frames@;
        frames.push(f);
        proof {
            assert(frames_view(frames@) =~= frames_view(before).push(f@));
        }
        i = i + 1;
    }
    Ok(frames)
}

fn when_member<'a, 'b>(sprite: &'b Json<'a>, field: &str) -> (r: Option<&'b Json<'a>>)
    ensures
        match r {
            Some(v) => when_field(sprite@, field.spec_bytes()) == Some(v@),
            None => when_field(sprite@, field.spec_bytes()) is None,
        },
{
    match sprite.get("when") {
        Some(when) => when.get(field),
        None => None,
    }
}

fn when_string<'a>(sprite: &Json<'a>, field: &str) -> (r: Option<&'a str>)
    ensures
        match r {
            Some(t) => when_text(sprite@, field.spec_bytes()) == Some(t.spec_bytes()),
            None => when_text(sprite@, field.spec_bytes()) is None,
        },
{
    match when_member(sprite, field) {
        Some(v) => v.as_str(),
        None => None,
    }
}

fn parse_rule(sprite: &Json) -> (r: Result<Rule, DataError>)
    ensures
        match r {
            Ok(rule) => rule_spec(sprite@) == Ok::<RuleView, DataError>(rule_view(rule)) && frames_ok(rule_view(rule).frames),
            Err(e) => rule_spec(sprite@) == Err::<RuleView, DataError>(e),
        },
{
    let outer: &[Json] = match sprite.get("pixels") {
        Some(p) => match p.as_array() {
            Some(o) => o,
            None => {
                return Err(DataError::MissingField { field: "pixels" });
            },
        },
        None => {
            return Err(DataError::MissingField { field: "pixels" });
        },
    };
    let frames = match parse_frames(outer) {
        Ok(f) => f,
        Err(e) => {
            return Err(e);
        },
    };
    let element_state: Option<State> = match when_string(sprite, "elementState") {
        Some(name) => match parse_state(name) {
            Some(s) => Some(s),
            None => {
                return Err(DataError::BadField { field: "elementState" });
            },
        },
        None => None,
    };
    let status: Option<Status> = match when_string(sprite, "status") {
        Some(t) => {
            if json::str_eq(t, "running") {
                Some(Status::Running)
            } else if json::str_eq(t, "blocked") {
                Some(Status::Blocked)
            } else if json::str_eq(t, "disabled") {
                Some(Status::Disabled)
            } else {
                return Err(DataError::BadField { field: "status" });
            }
        },
        None => None,
    };
    let row: Option<u32> = match when_member(sprite, "row") {
        Some(v) => match v.as_i32() {
            Some(x) => {
                if x >= 0 {
                    Some(x as u32)
                } else {
                    return Err(DataError::BadField { field: "row" });
                }
            },
            None => {
                return Err(DataError::BadField { field: "row" });
            },
        },
        None => None,
    };
    let element: Option<String> = match when_string(sprite, "element") {
        Some(t) => Some(owned(t)),
        None => None,
    };
    let rule = Rule { element, element_state, status, row, frames };
    proof {
        assert(rule_view(rule).frames == frames_view(rule.frames@));
    }
    Ok(rule)
}

/// Entries `i..` of a `sprites` list appended to `acc`, stopping at the first refusal.
pub open spec fn rules_loop_spec(sprites: Seq<JsonView>, i: int, acc: Seq<RuleView>) -> Result<Seq<RuleView>, DataError>
    decreases sprites.len() - i,
{
    if i < 0 || i >= sprites.len() {
        Ok(acc)
    } else {
        match rule_spec(sprites[i]) {
            Err(e) => Err(e),
            Ok(r) => rules_loop_spec(sprites, i + 1, acc.push(r)),
        }
    }
}

/// A machine's rules; without a `sprites` list it has none.
pub open spec fn entry_rules_spec(entry: JsonView) -> Result<Seq<RuleView>, DataError> {
    match jv_get(entry, "sprites".spec_bytes()) {
        Some(v) => match jv_array(v) {
            Some(sprites) => rules_loop_spec(sprites, 0, Seq::empty()),
            None => Ok(Seq::empty()),
        },
        None => Ok(Seq::empty()),
    }
}

/// The entity kind an entry is for.
pub open spec fn entry_kind_spec(entry: JsonView) -> Option<u8> {
    match jv_get(entry, "id".spec_bytes()) {
        Some(v) => jv_u8(v),
        None => None,
    }
}

/// The table grown with empty rule lists to at least `n` kinds.
pub open spec fn pad_sets(sets: Seq<Seq<RuleView>>, n: int) -> Seq<Seq<RuleView>> {
    if n <= sets.len() {
        sets
    } else {
        sets + Seq::new((n - sets.len()) as nat, |k: int| Seq::<RuleView>::empty())
    }
}

/// Entries `i..` placed at their kinds; a later entry for the same kind replaces the
/// earlier one's rules.
pub open spec fn sets_spec(entries: Seq<JsonView>, i: int, sets: Seq<Seq<RuleView>>) -> Result<Seq<Seq<RuleView>>, DataError>
    decreases entries.len() - i,
{
    if i < 0 || i >= entries.len() {
        Ok(sets)
    } else {
        match entry_kind_spec(entries[i]) {
            None => Err(DataError::MissingField { field: "id" }),
            Some(kind) => match entry_rules_spec(entries[i]) {
                Err(e) => Err(e),
                Ok(rules) => sets_spec(entries, i + 1, pad_sets(sets, kind as int + 1).update(kind as int, rules)),
            },
        }
    }
}

/// The whole loader. A file without an `entities` array has no sprites.
pub open spec fn sprite_table_spec(b: Seq<u8>) -> Result<Seq<Seq<RuleView>>, DataError> {
    match json::parse_spec(b) {
        Err(e) => Err(DataError::Json(e)),
        Ok(doc) => match jv_get(doc, "entities".spec_bytes()) {
            None => Ok(Seq::empty()),
            Some(v) => match jv_array(v) {
                None => Ok(Seq::empty()),
                Some(entries) => sets_spec(entries, 0, Seq::empty()),
            },
        },
    }
}

/// Every rule of the table has at least one frame, each one whole sprite.
pub open spec fn table_ok(sets: Seq<Seq<RuleView>>) -> bool {
    forall|k: int, j: int| 0 <= k < sets.len() && 0 <= j < sets[k].len() ==> frames_ok(#[trigger] sets[k][j].frames)
}

/// The first rule, from `i` on, that matches.
pub open spec fn first_match(rules: Seq<RuleView>, element: Seq<u8>, element_state: Option<State>, status: Status, row: u32, i: int) -> Option<int>
    decreases rules.len() - i,
{
    if i < 0 || i >= rules.len() {
        None
    } else if matches_spec(rules[i], element, element_state, status, row) {
        Some(i)
    } else {
        first_match(rules, element, element_state, status, row, i + 1)
    }
}

/// The pixel map to draw: that of the first matching rule of the kind, with the frame
/// counter wrapped by how many frames the rule has.
pub open spec fn pick_spec(sets: Seq<Seq<RuleView>>, kind: EntityKind, element: Seq<u8>, element_state: Option<State>, status: Status, frame: usize, row: u32) -> Option<Seq<u8>> {
    if kind as int >= sets.len() {
        None
    } else {
        match first_match(sets[kind as int], element, element_state, status, row, 0) {
            None => None,
            Some(k) => {
                let frames = sets[kind as int][k].frames;
                Some(frames[frame as int % frames.len() as int])
            },
        }
    }
}

spec fn rules_view(rules: Seq<Rule>) -> Seq<RuleView> {
    rules.map_values(|r: Rule| rule_view(r))
}

spec fn sets_view(sets: Seq<Vec<Rule>>) -> Seq<Seq<RuleView>> {
    sets.map_values(|rules: Vec<Rule>| rules_view(rules@))
}

/// Sprite rules by entity kind.
#[derive(Clone, Debug)]
pub struct SpriteTable {
    sets: Vec<Vec<Rule>>,
}

impl View for SpriteTable {
    type V = Seq<Seq<RuleView>>;

    closed spec fn view(&self) -> Seq<Seq<RuleView>> {
        sets_view(self.sets@)
    }
}

impl Default for SpriteTable {
    fn default() -> (r: SpriteTable)
        ensures
            r@.len() == 0,
            r.wf(),
    {
        let sets: Vec<Vec<Rule>> = Vec::new();
        proof {
            assert(sets_view(sets@).len() == 0);
        }
        SpriteTable { sets }
    }
}

impl SpriteTable {
    /// Every rule has at least one frame and every frame is one whole sprite.
    pub closed spec fn wf(&self) -> bool {
        table_ok(sets_view(self.sets@))
    }

    pub fn from_json(source: &str) -> (r: Result<SpriteTable, DataError>)
        ensures
            match r {
                Ok(t) => sprite_table_spec(source.spec_bytes()) == Ok::<Seq<Seq<RuleView>>, DataError>(t@) && t.wf(),
                Err(e) => sprite_table_spec(source.spec_bytes()) == Err::<Seq<Seq<RuleView>>, DataError>(e),
            },
    {
        let document: Json = match json::parse(source) {
            Ok(d) => d,
            Err(e) => {
                return Err(DataError::Json(e));
            },
        };
        let entries: &[Json] = match document.get("entities") {
            Some(v) => match v.as_array() {
                Some(items) => items,
                None => {
                    let t = SpriteTable::default();
                    proof {
                        assert(t@ =~= Seq::<Seq<RuleView>>::empty());
                    }
                    return Ok(t);
                },
            },
            None => {
                let t = SpriteTable::default();
                proof {
                    assert(t@ =~= Seq::<Seq<RuleView>>::empty());
                }
                return Ok(t);
            },
        };
        let ghost es = json::items_view(entries@);
        let mut sets: Vec<Vec<Rule>> = Vec::new();
        proof {
            json::lemma_items_view_len(entries@);
            let doc = json::parse_spec(source.spec_bytes()).unwrap();
            assert(doc == document@);
            assert(sets_view(sets@) =~= Seq::<Seq<RuleView>>::empty());
        }
        let mut i: usize = 0;
        while i < entries.len()
            invariant
                es == json::items_view(entries@),
                es.len() == entries@.len(),
                0 <= i <= entries@.len(),
                sprite_table_spec(source.spec_bytes()) == sets_spec(es, i as int, sets_view(sets@)),
                table_ok(sets_view(sets@)),
            decreases entries@.len() - i,
        {
            proof {
                json::lemma_items_view_index(entries@, i as int);
            }
            let entry = &entries[i];
            let kind: u8 = match entry.get("id") {
                Some(v) => match v.as_u8() {
                    Some(k) => k,
                    None => {
                        return Err(DataError::MissingField { field: "id" });
                    },
                },
                None => {
                    return Err(DataError::MissingField { field: "id" });
                },
            };
            let rules = match parse_rules(entry) {
                Ok(r) => r,
                Err(e) => {
                    return Err(e);
                },
            };
            let index: usize = kind as usize;
            let ghost before = sets_view(sets@);
            let ghost pre = sets@;
            while sets.len() <= index
                invariant
                    sets@.len() >= pre.len(),
                    sets@.len() == pre.len() || sets@.len() <= index + 1,
                    sets@.subrange(0, pre.len() as int) == pre,
                    forall|k: int| pre.len() <= k < sets@.len() ==> (#[trigger] sets@[k])@.len() == 0,
                decreases index + 1 - sets@.len(),
            {
                sets.push(Vec::new());
            }
            proof {
                assert(sets_view(sets@) =~= pad_sets(before, index as int + 1)) by {
                    assert forall|k: int| 0 <= k < sets@.len() implies #[trigger] sets_view(sets@)[k] == pad_sets(before, index as int + 1)[k] by {
                        if k < pre.len() {
                            assert(sets@[k] == pre[k]);
                        } else {
                            assert(rules_view(sets@[k]@) =~= Seq::<RuleView>::empty());
                        }
                    }
                }
            }
            let ghost grown = sets@;
            let ghost rv = rules_view(rules@);
            sets.set(index, rules);
            proof {
                assert(sets_view(sets@) =~= sets_view(grown).update(index as int, rv));
            }
            i = i + 1;
        }
        Ok(SpriteTable { sets })
    }

    /// The pixel map to draw, or `None` if nothing matches. `frame` is a monotonic
    /// counter, not an index: it is wrapped here so the caller never needs to know how
    /// many frames a rule has.
    pub fn pick(&self, kind: EntityKind, element: &str, element_state: Option<State>, status: Status, frame: usize, row: u32) -> (r: Option<&[u8]>)
        requires
            self.wf(),
        ensures
            match r {
                Some(p) => pick_spec(self@, kind, element.spec_bytes(), element_state, status, frame, row) == Some(p@) && p@.len() == frame_len(),
                None => pick_spec(self@, kind, element.spec_bytes(), element_state, status, frame, row) is None,
            },
    {
        let index: usize = kind as usize;
        if index >= self.sets.len() {
            return None;
        }
        let rules: &Vec<Rule> = &self.sets[index];
        let ghost rv = rules_view(rules@);
        let ghost name = element.spec_bytes();
        proof {
            assert(self@[index as int] == rv);
            assert forall|j: int| 0 <= j < rv.len() implies frames_ok(#[trigger] rv[j].frames) by {
                assert(self@[index as int][j] == rv[j]);
            }
        }
        let mut k: usize = 0;
        while k < rules.len()
            invariant
                rv == rules_view(rules@),
                rv.len() == rules@.len(),
                name == element.spec_bytes(),
                index == kind as usize,
                (index as int) < self@.len(),
                self@[index as int] == rv,
                0 <= k <= rules@.len(),
                first_match(rv, name, element_state, status, row, 0) == first_match(rv, name, element_state, status, row, k as int),
                forall|j: int| 0 <= j < rv.len() ==> frames_ok(#[trigger] rv[j].frames),
            decreases rules@.len() - k,
        {
            let rule: &Rule = &rules[k];
            proof {
                assert(rv[k as int] == rule_view(*rule));
            }
            if rule.matches(element, element_state, status, row) {
                let n: usize = rule.frames.len();
                proof {
                    assert(rv[k as int] == rule_view(*rule));
                    assert(frames_ok(rv[k as int].frames));
                    assert(rv[k as int].frames.len() == n);
                }
                let pixels: &[u8] = rule.frames[frame % n].as_slice();
                proof {
                    assert(rv[k as int].frames[(frame % n) as int] == pixels@);
                }
                return Some(pixels);
            }
            k = k + 1;
        }
        None
    }
}

fn parse_rules(entry: &Json) -> (r: Result<Vec<Rule>, DataError>)
    ensures
        match r {
            Ok(rules) => entry_rules_spec(entry@) == Ok::<Seq<RuleView>, DataError>(rules_view(rules@))
                && forall|j: int| 0 <= j < rules@.len() ==> frames_ok(#[trigger] rules_view(rules@)[j].frames),
            Err(e) => entry_rules_spec(entry@) == Err::<Seq<RuleView>, DataError>(e),
        },
{
    let mut rules: Vec<Rule> = Vec::new();
    proof {
        assert(rules_view(rules@) =~= Seq::<RuleView>::empty());
    }
    let sprites: &[Json] = match entry.get("sprites") {
        Some(v) => match v.as_array() {
            Some(items) => items,
            None => {
                return Ok(rules);
            },
        },
        None => {
            return Ok(rules);
        },
    };
    let ghost sv = json::items_view(sprites@);
    proof {
        json::lemma_items_view_len(sprites@);
    }
    let mut i: usize = 0;
    while i < sprites.len()
        invariant
            sv == json::items_view(sprites@),
            sv.len() == sprites@.len(),
            0 <= i <= sprites@.len(),
            entry_rules_spec(entry@) == rules_loop_spec(sv, i as int, rules_view(rules@)),
            forall|j: int| 0 <= j < rules@.len() ==> frames_ok(#[trigger] rules_view(rules@)[j].frames),
        decreases sprites@.len() - i,
    {
        proof {
            json::lemma_items_view_index(sprites@, i as int);
        }
        let rule = match parse_rule(&sprites[i]) {
            Ok(r) => r,
            Err(e) => {
                return Err(e);
            },
        };
        let ghost before = rules@;
        let ghost v = rule_view(rule);
        rules.push(rule);
        proof {
            assert(rules_view(rules@) =~= rules_view(before).push(v));
        }
        i = i + 1;
    }
    Ok(rules)
}

} // verus!
