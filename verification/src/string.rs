//! The string machine as a named handle.
use vstd::prelude::*;

use crate::error::Error;
use crate::grammar::scan_string;
use crate::json::Json;
use crate::model::ErrorV;
use crate::model::JsonVal;
use crate::parser::string;
use crate::parser::Cursor;

verus! {

/// The string state machine, as a unit handle for callers that pick a machine
/// by name.
pub struct StringParser;

impl StringParser {
    /// Runs the string machine at the cursor.
    pub fn parse_slice(cur: &mut Cursor) -> (r: Result<Json, Error>)
        requires
            old(cur).wf(),
        ensures
            final(cur).wf(),
            final(cur).text@ == old(cur).text@,
            match r {
                Ok(j) => j@ matches JsonVal::Str(t) && scan_string(
                    old(cur).text@,
                    old(cur).pos as nat,
                ) == Ok::<(Seq<char>, nat), (ErrorV, nat)>((t, final(cur).pos as nat)),
                Err(e) => scan_string(old(cur).text@, old(cur).pos as nat) == Err::<(Seq<char>, nat), (ErrorV, nat)>((e@, final(cur).pos as nat)),
            },
    {
        string(cur)
    }
}

} // verus!
