//! The node dispatcher as a named handle.
use vstd::prelude::*;

use crate::error::Error;
use crate::grammar::parse_node;
use crate::json::Json;
use crate::model::ErrorV;
use crate::model::JsonVal;
use crate::parser::node;
use crate::parser::Cursor;

verus! {

/// The node dispatcher, as a unit handle for callers that pick a machine by
/// name.
pub struct NodeParser;

impl NodeParser {
    /// Runs the node dispatcher at the cursor.
    pub fn parse_slice(cur: &mut Cursor) -> (r: Result<Json, Error>)
        requires
            old(cur).wf(),
        ensures
            final(cur).wf(),
            final(cur).text@ == old(cur).text@,
            match r {
                Ok(j) => parse_node(old(cur).text@, old(cur).pos as nat) == Ok::<(JsonVal, nat), (ErrorV, nat)>((j@, final(cur).pos as nat)),
                Err(e) => parse_node(old(cur).text@, old(cur).pos as nat) == Err::<(JsonVal, nat), (ErrorV, nat)>((e@, final(cur).pos as nat)),
            },
    {
        node(cur)
    }
}

} // verus!
