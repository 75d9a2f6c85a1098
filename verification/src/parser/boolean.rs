//! The boolean literal machine.
use vstd::prelude::*;

use crate::error::Error;
use crate::grammar::parse_boolean;
use crate::host::char_string;
use crate::json::Json;
use crate::model::ErrorV;
use crate::model::JsonVal;
use crate::parser::match_keyword;
use crate::parser::Cursor;

verus! {

/// Matches the keyword `true` or `false` at the cursor, chosen by the first
/// character.
pub fn boolean(cur: &mut Cursor) -> (r: Result<Json, Error>)
    requires
        old(cur).wf(),
    ensures
        final(cur).wf(),
        final(cur).text@ == old(cur).text@,
        match r {
            Ok(j) => parse_boolean(old(cur).text@, old(cur).pos as nat) == Ok::<(JsonVal, nat), (ErrorV, nat)>((j@, final(cur).pos as nat)),
            Err(e) => parse_boolean(old(cur).text@, old(cur).pos as nat) == Err::<(JsonVal, nat), (ErrorV, nat)>((e@, final(cur).pos as nat)),
        },
{
    match cur.peek() {
        None => Err(Error::UnexpectedEof),
        Some(c) => {
            if c == 't' {
                let kw = vec!['t', 'r', 'u', 'e'];
                match match_keyword(cur, &kw) {
                    Ok(()) => Ok(Json::Boolean(true)),
                    Err(e) => Err(e),
                }
            } else if c == 'f' {
                let kw = vec!['f', 'a', 'l', 's', 'e'];
                match match_keyword(cur, &kw) {
                    Ok(()) => Ok(Json::Boolean(false)),
                    Err(e) => Err(e),
                }
            } else {
                Err(Error::InvalidCharacter(char_string(c)))
            }
        },
    }
}

} // verus!
