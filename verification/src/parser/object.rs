//! The object parser: a machine over brace, colon and comma structure. Keys
//! come straight from the string machine; values go back through the node
//! dispatcher; a duplicate key overwrites its member in place.
use vstd::prelude::*;

use crate::bounds::lemma_obj_insert_found;
use crate::bounds::lemma_obj_insert_missing;
use crate::bounds::lemma_parse_node;
use crate::bounds::lemma_scan_string;
use crate::error::Error;
use crate::grammar::obj_insert;
use crate::grammar::obj_members;
use crate::grammar::parse_object;
use crate::host::char_string;
use crate::json::json_view;
use crate::json::lemma_obj_view_index;
use crate::json::obj_view;
use crate::json::Json;
use crate::model::ErrorV;
use crate::model::JsonVal;
use crate::parser::node;
use crate::parser::skip_whitespace;
use crate::parser::string;
use crate::parser::Cursor;
use vstd::pervasive::unreached;

verus! {

/// Replaces the value of `key` if a member already has it, else appends the
/// pair: the insert of a mapping that keeps member order.
#[verifier::loop_isolation(false)]
fn insert_pair(members: &mut Vec<(String, Json)>, key: String, v: Json)
    ensures
        obj_view(final(members)@) == obj_insert(obj_view(old(members)@), key@, v@),
{
    let ghost es = obj_view(members@);
    let ghost kv = key@;
    let ghost vv = v@;
    proof {
        lemma_obj_view_index(members@);
    }
    let mut idx: usize = 0;
    let n = members.len();
    while idx < n
        invariant
            idx <= n,
            n == members@.len(),
            members@ == old(members)@,
            forall|m: int| 0 <= m < idx ==> (#[trigger] members@[m]).0@ != kv,
        decreases n - idx,
    {
        if members[idx].0 == key {
            let ghost pre = members@;
            members.remove(idx);
            members.insert(idx, (key, v));
            proof {
                assert(members@ =~= pre.update(idx as int, (members@[idx as int].0, members@[
                    idx as int].1)));
                lemma_obj_view_index(members@);
                assert forall|m: int| 0 <= m < es.len() && m != idx implies #[trigger] es[m]
                    == obj_view(members@)[m] by {
                    assert(members@[m] == pre[m]);
                }
                assert(obj_view(members@) =~= es.update(idx as int, (kv, vv)));
                assert forall|m: int| 0 <= m < idx implies (#[trigger] es[m]).0 != kv by {
                    assert(es[m] == (pre[m].0@, json_view(pre[m].1)));
                }
                lemma_obj_insert_found(es, kv, vv, idx as int);
            }
            return ;
        }
        idx = idx + 1;
    }
    let ghost pre = members@;
    members.push((key, v));
    proof {
        assert(members@.drop_last() =~= pre);
        assert(obj_view(members@) == es.push((kv, vv)));
        assert forall|m: int| 0 <= m < es.len() implies (#[trigger] es[m]).0 != kv by {
            assert(es[m] == (pre[m].0@, json_view(pre[m].1)));
        }
        lemma_obj_insert_missing(es, kv, vv);
    }
}

/// Parses one object at the cursor: `{`, then members, each a quoted key, a
/// colon and a value. The member list also ends right after a comma, so a
/// trailing comma before `}` is accepted. A later duplicate key wins.
#[verifier::loop_isolation(false)]
pub fn object(cur: &mut Cursor) -> (r: Result<Json, Error>)
    requires
        old(cur).wf(),
    ensures
        final(cur).wf(),
        final(cur).text@ == old(cur).text@,
        match r {
            Ok(j) => parse_object(old(cur).text@, old(cur).pos as nat) == Ok::<(JsonVal, nat), (ErrorV, nat)>((j@, final(cur).pos as nat)),
            Err(e) => parse_object(old(cur).text@, old(cur).pos as nat) == Err::<(JsonVal, nat), (ErrorV, nat)>((e@, final(cur).pos as nat)),
        },
    decreases cur.text@.len() - cur.pos, 0int,
{
    let ghost s = cur.text@;
    let ghost p0 = cur.pos as nat;
    match cur.peek() {
        None => {
            return Err(Error::UnexpectedEof);
        },
        Some(c) => {
            if c != '{' {
                return Err(Error::InvalidCharacter(char_string(c)));
            }
            cur.next();
        },
    }
    let mut members: Vec<(String, Json)> = Vec::new();
    proof {
        assert(obj_view(members@) =~= Seq::<(Seq<char>, JsonVal)>::empty());
        assert(parse_object(s, p0) == obj_members(s, cur.pos as nat, obj_view(members@)));
    }
    loop
        invariant
            cur.wf(),
            cur.text@ == s,
            p0 < cur.pos,
            parse_object(s, p0) == obj_members(s, cur.pos as nat, obj_view(members@)),
        decreases s.len() - cur.pos,
    {
        let ghost it = cur.pos as nat;
        let ghost acc = obj_view(members@);
        skip_whitespace(cur);
        match cur.peek() {
            None => {
                return Err(Error::UnexpectedEof);
            },
            Some(c) => {
                if c == '}' {
                    cur.next();
                    return Ok(Json::Object(members));
                }
            },
        }
        let ghost kp = cur.pos as nat;
        let key_json = match string(cur) {
            Ok(j) => j,
            Err(e) => {
                return Err(e);
            },
        };
        proof {
            lemma_scan_string(s, kp);
        }
        let key = match key_json {
            Json::String(k) => k,
            _ => unreached(),
        };
        skip_whitespace(cur);
        match cur.peek() {
            None => {
                return Err(Error::UnexpectedEof);
            },
            Some(c) => {
                if c != ':' {
                    return Err(Error::InvalidCharacter(char_string(c)));
                }
                cur.next();
            },
        }
        let ghost np = cur.pos as nat;
        let v = match node(cur) {
            Ok(v) => v,
            Err(e) => {
                return Err(e);
            },
        };
        proof {
            lemma_parse_node(s, np);
        }
        let ghost kk = key@;
        let ghost vv = v@;
        insert_pair(&mut members, key, v);
        proof {
            assert(obj_view(members@) == obj_insert(acc, kk, vv));
        }
        skip_whitespace(cur);
        match cur.peek() {
            None => {
                return Err(Error::UnexpectedEof);
            },
            Some(c) => {
                if c == '}' {
                    cur.next();
                    return Ok(Json::Object(members));
                } else if c == ',' {
                    cur.next();
                } else {
                    return Err(Error::InvalidCharacter(char_string(c)));
                }
            },
        }
    }
}

} // verus!
