//! Reactions between adjacent elements.
//!
//! Data-driven, like elements: a reaction names its reactants and products by element
//! name, and adding one means editing data. Yield is whatever the layout produces,
//! because a reaction can only happen where two reactants are actually touching.

use vstd::prelude::*;
use vstd::string::StringSliceAdditionalSpecFns;
use crate::elements::{DataError, ElementId, ElementTable, ElementView, first_named};
use crate::fixed::Fixed;
use crate::json::{self, Json, JsonView, jv_get, jv_str, jv_array, jv_fixed};

verus! {

#[derive(Clone, Copy, Debug)]
pub struct Reaction {
    /// The two elements that must be adjacent.
    pub reactants: [ElementId; 2],
    /// What each becomes. Two products for two reactants, so a reaction changes
    /// composition without changing how many cells hold matter.
    pub products: [ElementId; 2],
    /// Chance per adjacent pair per tick, 0..1.
    pub probability: Fixed,
}

/// A reaction as plain values.
pub struct ReactionView {
    pub reactants: (u8, u8),
    pub products: (u8, u8),
    pub probability: Fixed,
}

impl View for Reaction {
    type V = ReactionView;

    open spec fn view(&self) -> ReactionView {
        ReactionView {
            reactants: (self.reactants@[0], self.reactants@[1]),
            products: (self.products@[0], self.products@[1]),
            probability: self.probability,
        }
    }
}

/// Two element names under `key`, resolved against the element table.
pub open spec fn pair_spec(entry: JsonView, key: &'static str, els: Seq<Option<ElementView>>) -> Result<(u8, u8), DataError> {
    match jv_get(entry, key.spec_bytes()) {
        None => Err(DataError::MissingField { field: key }),
        Some(v) => match jv_array(v) {
            None => Err(DataError::MissingField { field: key }),
            Some(list) => if list.len() != 2 {
                Err(DataError::BadField { field: key })
            } else {
                match jv_str(list[0]) {
                    None => Err(DataError::BadField { field: key }),
                    Some(n0) => match first_named(els, n0, 0) {
                        None => Err(DataError::UnknownElement { field: key }),
                        Some(a) => match jv_str(list[1]) {
                            None => Err(DataError::BadField { field: key }),
                            Some(n1) => match first_named(els, n1, 0) {
                                None => Err(DataError::UnknownElement { field: key }),
                                Some(b) => Ok((a, b)),
                            },
                        },
                    },
                }
            },
        },
    }
}

/// One entry of the `reactions` array.
pub open spec fn reaction_spec(entry: JsonView, els: Seq<Option<ElementView>>) -> Result<ReactionView, DataError> {
    match pair_spec(entry, "reactants", els) {
        Err(e) => Err(e),
        Ok(reactants) => match pair_spec(entry, "products", els) {
            Err(e) => Err(e),
            Ok(products) => match jv_get(entry, "probability".spec_bytes()) {
                None => Err(DataError::MissingField { field: "probability" }),
                Some(v) => match jv_fixed(v) {
                    None => Err(DataError::MissingField { field: "probability" }),
                    Some(probability) => Ok(ReactionView { reactants, products, probability }),
                },
            },
        },
    }
}

/// Entries `i..` appended to `done`, stopping at the first refusal.
pub open spec fn reactions_spec(entries: Seq<JsonView>, els: Seq<Option<ElementView>>, i: int, done: Seq<ReactionView>) -> Result<Seq<ReactionView>, DataError>
    decreases entries.len() - i,
{
    if i < 0 || i >= entries.len() {
        Ok(done)
    } else {
        match reaction_spec(entries[i], els) {
            Err(e) => Err(e),
            Ok(r) => reactions_spec(entries, els, i + 1, done.push(r)),
        }
    }
}

/// The whole loader. A file without a `reactions` array has no reactions.
pub open spec fn reaction_table_spec(b: Seq<u8>, els: Seq<Option<ElementView>>) -> Result<Seq<ReactionView>, DataError> {
    match json::parse_spec(b) {
        Err(e) => Err(DataError::Json(e)),
        Ok(doc) => match jv_get(doc, "reactions".spec_bytes()) {
            None => Ok(Seq::empty()),
            Some(v) => match jv_array(v) {
                None => Ok(Seq::empty()),
                Some(entries) => reactions_spec(entries, els, 0, Seq::empty()),
            },
        },
    }
}

/// The first reaction, from `i` on, between `first` and `second` in either order: its
/// index, and whether `first` sits on its second side.
pub open spec fn between_spec(rs: Seq<ReactionView>, first: u8, second: u8, i: int) -> Option<(int, bool)>
    decreases rs.len() - i,
{
    if i < 0 || i >= rs.len() {
        None
    } else if rs[i].reactants == (first, second) {
        Some((i, false))
    } else if rs[i].reactants == (second, first) {
        Some((i, true))
    } else {
        between_spec(rs, first, second, i + 1)
    }
}

pub open spec fn reactions_view(rs: Seq<Reaction>) -> Seq<ReactionView> {
    rs.map_values(|r: Reaction| r@)
}

#[derive(Clone, Debug)]
pub struct ReactionTable {
    reactions: Vec<Reaction>,
}

impl View for ReactionTable {
    type V = Seq<ReactionView>;

    closed spec fn view(&self) -> Seq<ReactionView> {
        reactions_view(self.reactions@)
    }
}

impl Default for ReactionTable {
    fn default() -> (r: ReactionTable)
        ensures
            r@.len() == 0,
    {
        ReactionTable { reactions: Vec::new() }
    }
}

impl ReactionTable {
    /// Reads the `reactions` array. Its absence is not an error: a world with no
    /// reactions is a perfectly good world.
    pub fn from_json(source: &str, elements: &ElementTable) -> (r: Result<ReactionTable, DataError>)
        ensures
            match r {
                Ok(t) => reaction_table_spec(source.spec_bytes(), elements@) == Ok::<Seq<ReactionView>, DataError>(t@),
                Err(e) => reaction_table_spec(source.spec_bytes(), elements@) == Err::<Seq<ReactionView>, DataError>(e),
            },
    {
        let document: Json = match json::parse(source) {
            Ok(d) => d,
            Err(e) => {
                return Err(DataError::Json(e));
            },
        };
        let entries: &[Json] = match document.get("reactions") {
            Some(v) => match v.as_array() {
                Some(items) => items,
                None => {
                    let r = ReactionTable::default();
                    proof {
                        assert(r@ =~= Seq::<ReactionView>::empty());
                    }
                    return Ok(r);
                },
            },
            None => {
                let r = ReactionTable::default();
                proof {
                    assert(r@ =~= Seq::<ReactionView>::empty());
                }
                return Ok(r);
            },
        };
        let ghost es = json::items_view(entries@);
        let mut reactions: Vec<Reaction> = Vec::new();
        proof {
            json::lemma_items_view_len(entries@);
            let doc = json::parse_spec(source.spec_bytes()).unwrap();
            assert(doc == document@);
            assert(jv_get(doc, "reactions".spec_bytes()) is Some);
            assert(jv_array(jv_get(doc, "reactions".spec_bytes()).unwrap()) == Some(es));
            assert(reactions_view(reactions@) =~= Seq::<ReactionView>::empty());
        }
        let mut i: usize = 0;
        while i < entries.len()
            invariant
                es == json::items_view(entries@),
                es.len() == entries@.len(),
                0 <= i <= entries@.len(),
                reaction_table_spec(source.spec_bytes(), elements@) == reactions_spec(es, elements@, i as int, reactions_view(reactions@)),
            decreases entries@.len() - i,
        {
            proof {
                json::lemma_items_view_index(entries@, i as int);
            }
            let reaction = match parse_reaction(&entries[i], elements) {
                Ok(r) => r,
                Err(e) => {
                    return Err(e);
                },
            };
            let ghost before = reactions@;
            reactions.push(reaction);
            proof {
                assert(reactions_view(reactions@) =~= reactions_view(before).push(reaction@));
            }
            i = i + 1;
        }
        Ok(ReactionTable { reactions })
    }

    pub fn is_empty(&self) -> (r: bool)
        ensures
            r == (self@.len() == 0),
    {
        self.reactions.len() == 0
    }

    pub fn len(&self) -> (r: usize)
        ensures
            r == self@.len(),
    {
        self.reactions.len()
    }

    /// The reaction between two elements, if there is one, along with which side of it
    /// `first` sits on.
    pub fn between(&self, first: ElementId, second: ElementId) -> (r: Option<(&Reaction, bool)>)
        ensures
            match between_spec(self@, first, second, 0) {
                Some((i, flipped)) => r is Some && r.unwrap().0@ == self@[i] && r.unwrap().1 == flipped,
                None => r is None,
            },
    {
        let mut i: usize = 0;
        while i < self.reactions.len()
            invariant
                0 <= i <= self.reactions@.len(),
                self@ == reactions_view(self.reactions@),
                between_spec(self@, first, second, 0) == between_spec(self@, first, second, i as int),
            decreases self.reactions@.len() - i,
        {
            let reaction = &self.reactions[i];
            if reaction.reactants[0] == first && reaction.reactants[1] == second {
                return Some((reaction, false));
            } else if reaction.reactants[1] == first && reaction.reactants[0] == second {
                return Some((reaction, true));
            }
            i = i + 1;
        }
        None
    }

    /// Every reaction, in file order.
    pub fn iter(&self) -> (r: Vec<&Reaction>)
        ensures
            r@.len() == self@.len(),
            forall|i: int| 0 <= i < r@.len() ==> (#[trigger] r@[i])@ == self@[i],
    {
        let mut out: Vec<&Reaction> = Vec::new();
        let mut i: usize = 0;
        while i < self.reactions.len()
            invariant
                0 <= i <= self.reactions@.len(),
                self@ == reactions_view(self.reactions@),
                out@.len() == i,
                forall|j: int| 0 <= j < i ==> (#[trigger] out@[j])@ == self@[j],
            decreases self.reactions@.len() - i,
        {
            out.push(&self.reactions[i]);
            i = i + 1;
        }
        out
    }
}

/// Two element names under `key`, resolved against `elements`.
fn reactant_pair(entry: &Json, key: &'static str, elements: &ElementTable) -> (r: Result<[ElementId; 2], DataError>)
    ensures
        match r {
            Ok(ids) => pair_spec(entry@, key, elements@) == Ok::<(u8, u8), DataError>((ids@[0], ids@[1])),
            Err(e) => pair_spec(entry@, key, elements@) == Err::<(u8, u8), DataError>(e),
        },
{
    let list: &[Json] = match entry.get(key) {
        Some(v) => match v.as_array() {
            Some(items) => items,
            None => {
                return Err(DataError::MissingField { field: key });
            },
        },
        None => {
            return Err(DataError::MissingField { field: key });
        },
    };
    proof {
        json::lemma_items_view_len(list@);
    }
    if list.len() != 2 {
        // Two-in, two-out keeps cell count invariant.
        return Err(DataError::BadField { field: key });
    }
    proof {
        json::lemma_items_view_index(list@, 0);
        json::lemma_items_view_index(list@, 1);
    }
    let first_name: &str = match list[0].as_str() {
        Some(n) => n,
        None => {
            return Err(DataError::BadField { field: key });
        },
    };
    let first: ElementId = match elements.id_of(first_name) {
        Some(id) => id,
        None => {
            return Err(DataError::UnknownElement { field: key });
        },
    };
    let second_name: &str = match list[1].as_str() {
        Some(n) => n,
        None => {
            return Err(DataError::BadField { field: key });
        },
    };
    let second: ElementId = match elements.id_of(second_name) {
        Some(id) => id,
        None => {
            return Err(DataError::UnknownElement { field: key });
        },
    };
    let ids: [ElementId; 2] = [first, second];
    assert(ids@[0] == first && ids@[1] == second);
    Ok(ids)
}

fn parse_reaction(entry: &Json, elements: &ElementTable) -> (r: Result<Reaction, DataError>)
    ensures
        match r {
            Ok(reaction) => reaction_spec(entry@, elements@) == Ok::<ReactionView, DataError>(reaction@),
            Err(e) => reaction_spec(entry@, elements@) == Err::<ReactionView, DataError>(e),
        },
{
    let reactants = match reactant_pair(entry, "reactants", elements) {
        Ok(p) => p,
        Err(e) => {
            return Err(e);
        },
    };
    let products = match reactant_pair(entry, "products", elements) {
        Ok(p) => p,
        Err(e) => {
            return Err(e);
        },
    };
    let probability: Fixed = match entry.get("probability") {
        Some(v) => match v.as_fixed() {
            Some(p) => p,
            None => {
                return Err(DataError::MissingField { field: "probability" });
            },
        },
        None => {
            return Err(DataError::MissingField { field: "probability" });
        },
    };
    Ok(Reaction { reactants, products, probability })
}

} // verus!
