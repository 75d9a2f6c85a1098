//! The JSON value tree, its parse entry point and its serializer.
use vstd::prelude::*;

use crate::error::Error;
use crate::grammar::parse_text;
use crate::host::char_string;
use crate::host::chars_to_string;
use crate::host::str_to_chars;
use crate::model::esc;
use crate::model::ser;
use crate::model::ser_elems;
use crate::model::ser_members;
use crate::model::ErrorV;
use crate::model::JsonVal;
use crate::number::write_number;
use crate::number::Number;
use crate::parser::node;
use crate::parser::skip_whitespace;
use crate::parser::Cursor;
use vstd::pervasive::unreached;
use vstd::string::StringExecFns;

verus! {

broadcast use
    vstd::std_specs::vec::axiom_vec_decreases_to_view,
    vstd::seq::axiom_seq_index_decreases,
    vstd::seq::axiom_seq_subrange_decreases,
;

/// A JSON value. An object is a list of key-value pairs with unique keys, in
/// the order in which the parser settled them; inserting an existing key
/// overwrites its value in place.
#[derive(Debug, PartialEq)]
pub enum Json {
    Object(Vec<(String, Json)>),
    Array(Vec<Json>),
    String(String),
    Number(Number),
    Boolean(bool),
    Null,
}

/// The abstract value of a tree.
pub open spec fn json_view(j: Json) -> JsonVal
    decreases j,
{
    match j {
        Json::Null => JsonVal::Null,
        Json::Boolean(b) => JsonVal::Bool(b),
        Json::Number(n) => JsonVal::Num(n@),
        Json::String(s) => JsonVal::Str(s@),
        Json::Array(v) => JsonVal::Arr(arr_view(v@)),
        Json::Object(v) => JsonVal::Obj(obj_view(v@)),
    }
}

/// The abstract values of an element list.
pub open spec fn arr_view(v: Seq<Json>) -> Seq<JsonVal>
    decreases v,
{
    if v.len() == 0 {
        Seq::empty()
    } else {
        arr_view(v.drop_last()).push(json_view(v.last()))
    }
}

/// The abstract members of a pair list.
pub open spec fn obj_view(v: Seq<(String, Json)>) -> Seq<(Seq<char>, JsonVal)>
    decreases v,
{
    if v.len() == 0 {
        Seq::empty()
    } else {
        obj_view(v.drop_last()).push((v.last().0@, json_view(v.last().1)))
    }
}

impl View for Json {
    type V = JsonVal;

    open spec fn view(&self) -> JsonVal {
        json_view(*self)
    }
}

/// The view of an element list is elementwise.
pub proof fn lemma_arr_view_index(v: Seq<Json>)
    ensures
        arr_view(v).len() == v.len(),
        forall|k: int| 0 <= k < v.len() ==> #[trigger] arr_view(v)[k] == json_view(v[k]),
    decreases v.len(),
{
    if v.len() > 0 {
        lemma_arr_view_index(v.drop_last());
    }
}

/// The view of a pair list is elementwise.
pub proof fn lemma_obj_view_index(v: Seq<(String, Json)>)
    ensures
        obj_view(v).len() == v.len(),
        forall|k: int|
            0 <= k < v.len() ==> #[trigger] obj_view(v)[k] == (v[k].0@, json_view(v[k].1)),
    decreases v.len(),
{
    if v.len() > 0 {
        lemma_obj_view_index(v.drop_last());
    }
}

/// Element texts joined by commas, one element at a time from the right.
pub proof fn lemma_ser_elems_snoc(a: Seq<JsonVal>, x: JsonVal)
    ensures
        ser_elems(a.push(x)) == if a.len() == 0 {
            ser(x)
        } else {
            ser_elems(a) + seq![','] + ser(x)
        },
    decreases a.len(),
{
    if a.len() == 0 {
        assert(a.push(x)[0] == x);
    } else {
        assert(a.push(x)[0] == a[0]);
        assert(a.push(x).skip(1) =~= a.skip(1).push(x));
        lemma_ser_elems_snoc(a.skip(1), x);
        if a.len() == 1 {
            assert(ser(a[0]) + seq![','] + ser(x) =~= ser_elems(a) + seq![','] + ser(x));
        } else {
            assert(ser(a[0]) + seq![','] + (ser_elems(a.skip(1)) + seq![','] + ser(x)) =~= (ser(
                a[0],
            ) + seq![','] + ser_elems(a.skip(1))) + seq![','] + ser(x));
        }
    }
}

/// Member texts joined by commas, one member at a time from the right.
pub proof fn lemma_ser_members_snoc(a: Seq<(Seq<char>, JsonVal)>, x: (Seq<char>, JsonVal))
    ensures
        ser_members(a.push(x)) == {
            let head = seq!['"'] + esc(x.0) + seq!['"', ':'] + ser(x.1);
            if a.len() == 0 {
                head
            } else {
                ser_members(a) + seq![','] + head
            }
        },
    decreases a.len(),
{
    if a.len() == 0 {
        assert(a.push(x)[0] == x);
    } else {
        assert(a.push(x)[0] == a[0]);
        assert(a.push(x).skip(1) =~= a.skip(1).push(x));
        lemma_ser_members_snoc(a.skip(1), x);
        let head0 = seq!['"'] + esc(a[0].0) + seq!['"', ':'] + ser(a[0].1);
        let headx = seq!['"'] + esc(x.0) + seq!['"', ':'] + ser(x.1);
        if a.len() == 1 {
            assert(head0 + seq![','] + headx =~= ser_members(a) + seq![','] + headx);
        } else {
            assert(head0 + seq![','] + (ser_members(a.skip(1)) + seq![','] + headx) =~= (head0
                + seq![','] + ser_members(a.skip(1))) + seq![','] + headx);
        }
    }
}

/// Appends the string body of `t`, escaping only the quote character.
#[verifier::loop_isolation(false)]
fn write_escaped(t: &String, out: &mut Vec<char>)
    ensures
        final(out)@ == old(out)@ + esc(t@),
{
    let cs = str_to_chars(t.as_str());
    proof {
        assert(t@.take(0) =~= Seq::<char>::empty());
        assert(out@ + esc(t@.take(0)) =~= out@);
    }
    let n = cs.len();
    let mut k: usize = 0;
    while k < n
        invariant
            k <= n,
            n == cs@.len(),
            cs@ == t@,
            out@ == old(out)@ + esc(t@.take(k as int)),
        decreases n - k,
    {
        let c = cs[k];
        proof {
            assert(t@.take(k as int + 1).drop_last() =~= t@.take(k as int));
            assert(t@.take(k as int + 1).last() == c);
        }
        if c == '"' {
            out.push('\\');
            out.push('"');
            proof {
                assert(out@ =~= old(out)@ + esc(t@.take(k as int + 1)));
            }
        } else {
            out.push(c);
            proof {
                assert(out@ =~= old(out)@ + esc(t@.take(k as int + 1)));
            }
        }
        k = k + 1;
    }
    proof {
        assert(t@.take(n as int) =~= t@);
    }
}

/// Appends the serialized text of a tree.
#[verifier::loop_isolation(false)]
#[verifier::rlimit(60)]
fn write_json(j: &Json, out: &mut Vec<char>)
    ensures
        final(out)@ == old(out)@ + ser(j@),
    decreases j,
{
    match j {
        Json::Null => {
            out.push('n');
            out.push('u');
            out.push('l');
            out.push('l');
            proof {
                assert(out@ =~= old(out)@ + ser(j@));
            }
        },
        Json::Boolean(b) => {
            if *b {
                out.push('t');
                out.push('r');
                out.push('u');
                out.push('e');
            } else {
                out.push('f');
                out.push('a');
                out.push('l');
                out.push('s');
                out.push('e');
            }
            proof {
                assert(out@ =~= old(out)@ + ser(j@));
            }
        },
        Json::Number(n) => {
            write_number(n, out);
        },
        Json::String(t) => {
            out.push('"');
            write_escaped(t, out);
            out.push('"');
            proof {
                assert(out@ =~= old(out)@ + ser(j@));
            }
        },
        Json::Array(v) => {
            let ghost vs = arr_view(v@);
            proof {
                lemma_arr_view_index(v@);
                assert(vs.take(0) =~= Seq::<JsonVal>::empty());
            }
            out.push('[');
            let n = v.len();
            let mut k: usize = 0;
            while k < n
                invariant
                    k <= n,
                    n == v@.len(),
                    out@ == old(out)@ + seq!['['] + ser_elems(vs.take(k as int)),
                decreases n - k,
            {
                if k > 0 {
                    out.push(',');
                }
                write_json(&v[k], out);
                proof {
                    assert(vs.take(k as int + 1) =~= vs.take(k as int).push(vs[k as int]));
                    lemma_ser_elems_snoc(vs.take(k as int), vs[k as int]);
                    assert(out@ =~= old(out)@ + seq!['['] + ser_elems(vs.take(k as int + 1)));
                }
                k = k + 1;
            }
            out.push(']');
            proof {
                assert(vs.take(n as int) =~= vs);
                assert(out@ =~= old(out)@ + ser(j@));
            }
        },
        Json::Object(v) => {
            let ghost ms = obj_view(v@);
            proof {
                lemma_obj_view_index(v@);
                assert(ms.take(0) =~= Seq::<(Seq<char>, JsonVal)>::empty());
            }
            out.push('{');
            let n = v.len();
            let mut k: usize = 0;
            while k < n
                invariant
                    k <= n,
                    n == v@.len(),
                    out@ == old(out)@ + seq!['{'] + ser_members(ms.take(k as int)),
                decreases n - k,
            {
                if k > 0 {
                    out.push(',');
                }
                out.push('"');
                let pair = &v[k];
                write_escaped(&pair.0, out);
                out.push('"');
                out.push(':');
                write_json(&pair.1, out);
                proof {
                    assert(ms.take(k as int + 1) =~= ms.take(k as int).push(ms[k as int]));
                    lemma_ser_members_snoc(ms.take(k as int), ms[k as int]);
                    assert(out@ =~= old(out)@ + seq!['{'] + ser_members(ms.take(k as int + 1)));
                }
                k = k + 1;
            }
            out.push('}');
            proof {
                assert(ms.take(n as int) =~= ms);
                assert(out@ =~= old(out)@ + ser(j@));
            }
        },
    }
}

impl Json {
    /// Parses a JSON document: one value, with only whitespace around it.
    pub fn parse(text: &str) -> (r: Result<Json, Error>)
        ensures
            match r {
                Ok(j) => parse_text(text@) == Ok::<JsonVal, ErrorV>(j@),
                Err(e) => parse_text(text@) == Err::<JsonVal, ErrorV>(e@),
            },
    {
        let chars = str_to_chars(text);
        let mut cur = Cursor::new(chars);
        let j = match node(&mut cur) {
            Ok(j) => j,
            Err(e) => {
                return Err(e);
            },
        };
        skip_whitespace(&mut cur);
        match cur.peek() {
            None => Ok(j),
            Some(c) => Err(Error::InvalidCharacter(char_string(c))),
        }
    }

    /// The serialized text of this tree: minimal JSON, no added whitespace.
    pub fn to_string(&self) -> (r: String)
        ensures
            r@ == ser(self@),
    {
        let mut out: Vec<char> = Vec::new();
        write_json(self, &mut out);
        proof {
            assert(Seq::<char>::empty() + ser(self@) =~= ser(self@));
        }
        chars_to_string(&out)
    }

    /// A string value with exactly the given characters. `From<&str>` cannot
    /// promise this (no spec expression names the `String` it allocates), so
    /// this is the specified way to build a string value from a slice.
    pub fn from_str(v: &str) -> (r: Json)
        ensures
            r@ == JsonVal::Str(v@),
    {
        Json::String(String::from_str(v))
    }

    /// The unit value of a null, for callers that have checked the tag.
    pub fn as_null(&self) -> (r: ())
        requires
            self@ is Null,
    {
        match self {
            Json::Null => (),
            _ => unreached(),
        }
    }

    /// The boolean behind the tag.
    pub fn as_bool(&self) -> (r: bool)
        requires
            self@ is Bool,
        ensures
            self@ == JsonVal::Bool(r),
    {
        match self {
            Json::Boolean(b) => *b,
            _ => unreached(),
        }
    }

    /// The number behind the tag.
    pub fn as_number(&self) -> (r: &Number)
        requires
            self@ is Num,
        ensures
            self@ == JsonVal::Num(r@),
    {
        match self {
            Json::Number(n) => n,
            _ => unreached(),
        }
    }

    /// The string behind the tag.
    pub fn as_string(&self) -> (r: String)
        requires
            self@ is Str,
        ensures
            self@ == JsonVal::Str(r@),
    {
        match self {
            Json::String(t) => t.clone(),
            _ => unreached(),
        }
    }

    /// The elements behind the tag.
    pub fn as_array(&self) -> (r: &Vec<Json>)
        requires
            self@ is Arr,
        ensures
            self@ == JsonVal::Arr(arr_view(r@)),
    {
        match self {
            Json::Array(v) => v,
            _ => unreached(),
        }
    }

    /// The members behind the tag.
    pub fn as_object(&self) -> (r: &Vec<(String, Json)>)
        requires
            self@ is Obj,
        ensures
            self@ == JsonVal::Obj(obj_view(r@)),
    {
        match self {
            Json::Object(v) => v,
            _ => unreached(),
        }
    }
}

impl From<()> for Json {
    fn from(v: ()) -> (r: Json) {
        Json::Null
    }
}

impl vstd::std_specs::convert::FromSpecImpl<()> for Json {
    open spec fn obeys_from_spec() -> bool {
        true
    }

    open spec fn from_spec(v: ()) -> Json {
        Json::Null
    }
}

impl From<bool> for Json {
    fn from(v: bool) -> (r: Json) {
        Json::Boolean(v)
    }
}

impl vstd::std_specs::convert::FromSpecImpl<bool> for Json {
    open spec fn obeys_from_spec() -> bool {
        true
    }

    open spec fn from_spec(v: bool) -> Json {
        Json::Boolean(v)
    }
}

impl From<u64> for Json {
    fn from(v: u64) -> (r: Json) {
        Json::Number(Number::Unsigned(v))
    }
}

impl vstd::std_specs::convert::FromSpecImpl<u64> for Json {
    open spec fn obeys_from_spec() -> bool {
        true
    }

    open spec fn from_spec(v: u64) -> Json {
        Json::Number(Number::Unsigned(v))
    }
}

impl From<i32> for Json {
    fn from(v: i32) -> (r: Json) {
        Json::Number(Number::Integer(v as i64))
    }
}

impl vstd::std_specs::convert::FromSpecImpl<i32> for Json {
    open spec fn obeys_from_spec() -> bool {
        true
    }

    open spec fn from_spec(v: i32) -> Json {
        Json::Number(Number::Integer(v as i64))
    }
}

impl From<i64> for Json {
    fn from(v: i64) -> (r: Json) {
        Json::Number(Number::Integer(v))
    }
}

impl vstd::std_specs::convert::FromSpecImpl<i64> for Json {
    open spec fn obeys_from_spec() -> bool {
        true
    }

    open spec fn from_spec(v: i64) -> Json {
        Json::Number(Number::Integer(v))
    }
}

impl From<String> for Json {
    fn from(v: String) -> (r: Json) {
        Json::String(v)
    }
}

impl vstd::std_specs::convert::FromSpecImpl<String> for Json {
    open spec fn obeys_from_spec() -> bool {
        true
    }

    open spec fn from_spec(v: String) -> Json {
        Json::String(v)
    }
}

impl<'a> From<&'a str> for Json {
    fn from(v: &'a str) -> (r: Json) {
        Json::String(String::from_str(v))
    }
}

impl<'a> vstd::std_specs::convert::FromSpecImpl<&'a str> for Json {
    open spec fn obeys_from_spec() -> bool {
        false
    }

    open spec fn from_spec(v: &'a str) -> Json {
        Json::Null
    }
}

impl From<Vec<Json>> for Json {
    fn from(v: Vec<Json>) -> (r: Json) {
        Json::Array(v)
    }
}

impl vstd::std_specs::convert::FromSpecImpl<Vec<Json>> for Json {
    open spec fn obeys_from_spec() -> bool {
        true
    }

    open spec fn from_spec(v: Vec<Json>) -> Json {
        Json::Array(v)
    }
}

impl From<Vec<(String, Json)>> for Json {
    fn from(v: Vec<(String, Json)>) -> (r: Json) {
        Json::Object(v)
    }
}

impl vstd::std_specs::convert::FromSpecImpl<Vec<(String, Json)>> for Json {
    open spec fn obeys_from_spec() -> bool {
        true
    }

    open spec fn from_spec(v: Vec<(String, Json)>) -> Json {
        Json::Object(v)
    }
}

} // verus!
