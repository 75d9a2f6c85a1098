//! The node dispatcher: skips whitespace, classifies the next character, and
//! routes to the matching machine. The recursive entry point for any value.
use vstd::prelude::*;

use crate::error::Error;
use crate::grammar::parse_node;
use crate::host::char_string;
use crate::json::Json;
use crate::model::ErrorV;
use crate::model::JsonVal;
use crate::parser::array;
use crate::parser::boolean;
use crate::parser::digit;
use crate::parser::null;
use crate::parser::number;
use crate::parser::object;
use crate::parser::skip_whitespace;
use crate::parser::string;
use crate::parser::Cursor;

verus! {

/// Parses one value at the cursor: whitespace is skipped, the next character
/// picks the machine, and that machine's result is returned unchanged. End of
/// input gives `UnexpectedEof`; a character that starts no value is reported
/// without being consumed.
pub fn node(cur: &mut Cursor) -> (r: Result<Json, Error>)
    requires
        old(cur).wf(),
    ensures
        final(cur).wf(),
        final(cur).text@ == old(cur).text@,
        match r {
            Ok(j) => parse_node(old(cur).text@, old(cur).pos as nat) == Ok::<(JsonVal, nat), (ErrorV, nat)>((j@, final(cur).pos as nat)),
            Err(e) => parse_node(old(cur).text@, old(cur).pos as nat) == Err::<(JsonVal, nat), (ErrorV, nat)>((e@, final(cur).pos as nat)),
        },
    decreases cur.text@.len() - cur.pos, 1int,
{
    skip_whitespace(cur);
    match cur.peek() {
        None => Err(Error::UnexpectedEof),
        Some(c) => {
            if c == 'n' {
                null(cur)
            } else if c == 't' || c == 'f' {
                boolean(cur)
            } else if c == '-' || digit(c) {
                number(cur)
            } else if c == '"' {
                string(cur)
            } else if c == '[' {
                array(cur)
            } else if c == '{' {
                object(cur)
            } else {
                Err(Error::InvalidCharacter(char_string(c)))
            }
        },
    }
}

} // verus!
