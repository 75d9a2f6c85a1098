//! The mathematical model of a JSON document: the value tree, the two parse
//! error kinds, and the text that the serializer produces for a tree.
use vstd::prelude::*;

verus! {

/// A parsed number, with its exactness class. A token without sign, fraction
/// and exponent is unsigned; one with a leading minus and no fraction or
/// exponent is a signed integer; one with a fraction or an exponent keeps its
/// source text, so that serializing gives the token back unchanged.
pub enum NumVal {
    Uns(u64),
    Int(i64),
    Flt(Seq<char>),
}

/// A JSON value tree. Object members keep the order in which the parser
/// settled them; a later duplicate key overwrites in place.
pub enum JsonVal {
    Null,
    Bool(bool),
    Num(NumVal),
    Str(Seq<char>),
    Arr(Seq<JsonVal>),
    Obj(Seq<(Seq<char>, JsonVal)>),
}

/// The two parse error kinds: input ran out, or the offending text.
pub enum ErrorV {
    Eof,
    Invalid(Seq<char>),
}

/// The decimal digit character for `n % 10`.
pub open spec fn digit_char(n: nat) -> char {
    let d = n % 10;
    if d == 0 {
        '0'
    } else if d == 1 {
        '1'
    } else if d == 2 {
        '2'
    } else if d == 3 {
        '3'
    } else if d == 4 {
        '4'
    } else if d == 5 {
        '5'
    } else if d == 6 {
        '6'
    } else if d == 7 {
        '7'
    } else if d == 8 {
        '8'
    } else {
        '9'
    }
}

/// The decimal text of `n`, most significant digit first.
pub open spec fn dec_text(n: nat) -> Seq<char>
    decreases n,
{
    if n < 10 {
        seq![digit_char(n)]
    } else {
        dec_text(n / 10).push(digit_char(n % 10))
    }
}

/// The text of a number: unsigned and signed integers in decimal, a float
/// token verbatim, except that a negative zero token renders as plain `0`.
pub open spec fn num_text(n: NumVal) -> Seq<char> {
    match n {
        NumVal::Uns(u) => dec_text(u as nat),
        NumVal::Int(i) => if i < 0 {
            seq!['-'] + dec_text((-(i as int)) as nat)
        } else {
            dec_text(i as nat)
        },
        NumVal::Flt(t) => t,
    }
}

/// String body escaping: only the quote character is escaped; everything
/// else is copied verbatim.
pub open spec fn esc(t: Seq<char>) -> Seq<char>
    decreases t.len(),
{
    if t.len() == 0 {
        Seq::empty()
    } else if t.last() == '"' {
        esc(t.drop_last()) + seq!['\\', '"']
    } else {
        esc(t.drop_last()).push(t.last())
    }
}

/// The serialized text of a value: minimal JSON with no added whitespace.
pub open spec fn ser(v: JsonVal) -> Seq<char>
    decreases v,
{
    match v {
        JsonVal::Null => seq!['n', 'u', 'l', 'l'],
        JsonVal::Bool(b) => if b {
            seq!['t', 'r', 'u', 'e']
        } else {
            seq!['f', 'a', 'l', 's', 'e']
        },
        JsonVal::Num(n) => num_text(n),
        JsonVal::Str(t) => seq!['"'] + esc(t) + seq!['"'],
        JsonVal::Arr(elems) => seq!['['] + ser_elems(elems) + seq![']'],
        JsonVal::Obj(members) => seq!['{'] + ser_members(members) + seq!['}'],
    }
}

/// Array elements, comma separated.
pub open spec fn ser_elems(elems: Seq<JsonVal>) -> Seq<char>
    decreases elems,
{
    if elems.len() == 0 {
        Seq::empty()
    } else if elems.len() == 1 {
        ser(elems[0])
    } else {
        ser(elems[0]) + seq![','] + ser_elems(elems.skip(1))
    }
}

/// Object members, each a quoted key, a colon and a value, comma separated.
pub open spec fn ser_members(members: Seq<(Seq<char>, JsonVal)>) -> Seq<char>
    decreases members,
{
    if members.len() == 0 {
        Seq::empty()
    } else {
        let head = seq!['"'] + esc(members[0].0) + seq!['"', ':'] + ser(members[0].1);
        if members.len() == 1 {
            head
        } else {
            head + seq![','] + ser_members(members.skip(1))
        }
    }
}

} // verus!
