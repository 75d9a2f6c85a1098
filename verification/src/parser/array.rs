//! The array parser: a small machine over bracket and comma structure that
//! hands each element back to the node dispatcher.
use vstd::prelude::*;

use crate::bounds::lemma_parse_node;
use crate::error::Error;
use crate::grammar::arr_elems;
use crate::grammar::parse_array;
use crate::host::char_string;
use crate::json::arr_view;
use crate::json::Json;
use crate::model::ErrorV;
use crate::model::JsonVal;
use crate::parser::node;
use crate::parser::skip_whitespace;
use crate::parser::Cursor;

verus! {

/// Parses one array at the cursor: `[`, then either `]` or a comma-separated
/// run of values. A comma must be followed by a value, never by `]`; element
/// order is preserved.
#[verifier::loop_isolation(false)]
pub fn array(cur: &mut Cursor) -> (r: Result<Json, Error>)
    requires
        old(cur).wf(),
    ensures
        final(cur).wf(),
        final(cur).text@ == old(cur).text@,
        match r {
            Ok(j) => parse_array(old(cur).text@, old(cur).pos as nat) == Ok::<(JsonVal, nat), (ErrorV, nat)>((j@, final(cur).pos as nat)),
            Err(e) => parse_array(old(cur).text@, old(cur).pos as nat) == Err::<(JsonVal, nat), (ErrorV, nat)>((e@, final(cur).pos as nat)),
        },
    decreases cur.text@.len() - cur.pos, 0int,
{
    let ghost s = cur.text@;
    let ghost p0 = cur.pos as nat;
    match cur.peek() {
        None => {
            return Err(Error::UnexpectedEof);
        },
        Some(c) => {
            if c != '[' {
                return Err(Error::InvalidCharacter(char_string(c)));
            }
            cur.next();
        },
    }
    skip_whitespace(cur);
    match cur.peek() {
        None => {
            return Err(Error::UnexpectedEof);
        },
        Some(c) => {
            if c == ']' {
                cur.next();
                let elems: Vec<Json> = Vec::new();
                proof {
                    assert(arr_view(elems@) =~= Seq::<JsonVal>::empty());
                }
                return Ok(Json::Array(elems));
            }
        },
    }
    let mut elems: Vec<Json> = Vec::new();
    proof {
        assert(arr_view(elems@) =~= Seq::<JsonVal>::empty());
        assert(parse_array(s, p0) == arr_elems(s, cur.pos as nat, arr_view(elems@)));
    }
    loop
        invariant
            cur.wf(),
            cur.text@ == s,
            p0 < cur.pos,
            parse_array(s, p0) == arr_elems(s, cur.pos as nat, arr_view(elems@)),
        decreases s.len() - cur.pos,
    {
        let ghost ip = cur.pos as nat;
        let ghost acc = arr_view(elems@);
        let v = match node(cur) {
            Ok(v) => v,
            Err(e) => {
                return Err(e);
            },
        };
        proof {
            lemma_parse_node(s, ip);
        }
        let ghost vv = v@;
        let ghost pre = elems@;
        elems.push(v);
        proof {
            assert(elems@.drop_last() =~= pre);
            assert(arr_view(elems@) == acc.push(vv));
        }
        skip_whitespace(cur);
        match cur.peek() {
            None => {
                return Err(Error::UnexpectedEof);
            },
            Some(c) => {
                if c == ']' {
                    cur.next();
                    return Ok(Json::Array(elems));
                } else if c == ',' {
                    cur.next();
                } else {
                    return Err(Error::InvalidCharacter(char_string(c)));
                }
            },
        }
    }
}

} // verus!
