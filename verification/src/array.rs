//! The array machine as a named handle.
use vstd::prelude::*;

use crate::error::Error;
use crate::grammar::parse_array;
use crate::json::Json;
use crate::model::ErrorV;
use crate::model::JsonVal;
use crate::parser::array;
use crate::parser::Cursor;

verus! {

/// The array state machine, as a unit handle for callers that pick a machine
/// by name.
pub struct ArrayParser;

impl ArrayParser {
    /// Runs the array machine at the cursor.
    pub fn parse_slice(cur: &mut Cursor) -> (r: Result<Json, Error>)
        requires
            old(cur).wf(),
        ensures
            final(cur).wf(),
            final(cur).text@ == old(cur).text@,
            match r {
                Ok(j) => parse_array(old(cur).text@, old(cur).pos as nat) == Ok::<(JsonVal, nat), (ErrorV, nat)>((j@, final(cur).pos as nat)),
                Err(e) => parse_array(old(cur).text@, old(cur).pos as nat) == Err::<(JsonVal, nat), (ErrorV, nat)>((e@, final(cur).pos as nat)),
            },
    {
        array(cur)
    }
}

} // verus!
