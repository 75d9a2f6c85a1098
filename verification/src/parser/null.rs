//! The null literal machine.
use vstd::prelude::*;

use crate::error::Error;
use crate::grammar::parse_null;
use crate::json::Json;
use crate::model::ErrorV;
use crate::model::JsonVal;
use crate::parser::match_keyword;
use crate::parser::Cursor;

verus! {

/// Matches the keyword `null` at the cursor.
pub fn null(cur: &mut Cursor) -> (r: Result<Json, Error>)
    requires
        old(cur).wf(),
    ensures
        final(cur).wf(),
        final(cur).text@ == old(cur).text@,
        match r {
            Ok(j) => parse_null(old(cur).text@, old(cur).pos as nat) == Ok::<(JsonVal, nat), (ErrorV, nat)>(
                (j@, final(cur).pos as nat),
            ),
            Err(e) => parse_null(old(cur).text@, old(cur).pos as nat) == Err::<(JsonVal, nat), (ErrorV, nat)>((e@, final(cur).pos as nat)),
        },
{
    let kw = vec!['n', 'u', 'l', 'l'];
    match match_keyword(cur, &kw) {
        Ok(()) => Ok(Json::Null),
        Err(e) => Err(e),
    }
}

} // verus!
