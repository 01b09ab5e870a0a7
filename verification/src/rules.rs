//! Everything the data file defines, loaded together.
//!
//! Elements, reactions and machines are always read from the same source and always
//! travel together, so they get one type rather than three parameters threaded through
//! everything.

use vstd::prelude::*;
use vstd::string::StringSliceAdditionalSpecFns;
use crate::elements::{DataError, ElementTable, ElementView, table_spec};
use crate::entities::{EntityTable, EntityTypeView, entity_table_spec};
use crate::reactions::{ReactionTable, ReactionView, reaction_table_spec};

verus! {

#[derive(Clone, Debug)]
pub struct Rules {
    pub elements: ElementTable,
    pub reactions: ReactionTable,
    pub entities: EntityTable,
}

impl Default for Rules {
    fn default() -> (r: Rules)
        ensures
            r.elements@.len() == 0,
            r.reactions@.len() == 0,
            r.entities@.len() == 0,
    {
        Rules { elements: ElementTable::default(), reactions: ReactionTable::default(), entities: EntityTable::default() }
    }
}

/// Elements first; reactions and machines name elements, so they are read against the
/// finished element table, reactions before machines.
pub open spec fn rules_spec(b: Seq<u8>) -> Result<(Seq<Option<ElementView>>, Seq<ReactionView>, Seq<Option<EntityTypeView>>), DataError> {
    match table_spec(b) {
        Err(e) => Err(e),
        Ok(els) => match reaction_table_spec(b, els) {
            Err(e) => Err(e),
            Ok(rs) => match entity_table_spec(b, els) {
                Err(e) => Err(e),
                Ok(ts) => Ok((els, rs, ts)),
            },
        },
    }
}

impl Rules {
    pub fn from_json(source: &str) -> (r: Result<Rules, DataError>)
        ensures
            match r {
                Ok(rules) => rules_spec(source.spec_bytes()) == Ok::<(Seq<Option<ElementView>>, Seq<ReactionView>, Seq<Option<EntityTypeView>>), DataError>(
                    (rules.elements@, rules.reactions@, rules.entities@),
                ) && rules.elements.wf() && rules.entities.wf(),
                Err(e) => rules_spec(source.spec_bytes()) == Err::<(Seq<Option<ElementView>>, Seq<ReactionView>, Seq<Option<EntityTypeView>>), DataError>(e),
            },
    {
        let elements = match ElementTable::from_json(source) {
            Ok(t) => t,
            Err(e) => {
                return Err(e);
            },
        };
        let reactions = match ReactionTable::from_json(source, &elements) {
            Ok(t) => t,
            Err(e) => {
                return Err(e);
            },
        };
        let entities = match EntityTable::from_json(source, &elements) {
            Ok(t) => t,
            Err(e) => {
                return Err(e);
            },
        };
        Ok(Rules { elements, reactions, entities })
    }
}

} // verus!
