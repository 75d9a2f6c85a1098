//! The grammar of JSON text, as functions from a character sequence and a
//! start position to a parsed value and an end position. A failure carries the
//! error and the position at which the machine stopped: characters consumed
//! before the failure stay consumed, and the offending character is not.
//! Each function mirrors one state machine of the parser; the executable
//! machines are proved to return exactly what these functions say.
use vstd::prelude::*;

use crate::model::ErrorV;
use crate::model::JsonVal;
use crate::model::NumVal;

verus! {

/// Insignificant whitespace between tokens.
pub open spec fn is_ws(c: char) -> bool {
    c == ' ' || c == '\r' || c == '\n' || c == '\t'
}

pub open spec fn is_digit(c: char) -> bool {
    48 <= c as u32 && c as u32 <= 57
}

/// The value of a decimal digit character.
pub open spec fn digit_val(c: char) -> int {
    c as u32 - 48
}

pub open spec fn is_hex_digit(c: char) -> bool {
    is_digit(c) || (97 <= c as u32 && c as u32 <= 102) || (65 <= c as u32 && c as u32 <= 70)
}

/// The value of a hexadecimal digit character.
pub open spec fn hex_val(c: char) -> int {
    if is_digit(c) {
        c as u32 - 48
    } else if 97 <= c as u32 && c as u32 <= 102 {
        c as u32 - 87
    } else {
        c as u32 - 55
    }
}

/// The value of a big-endian sequence of hexadecimal digit characters.
pub open spec fn hex_seq_val(ds: Seq<char>) -> int
    decreases ds.len(),
{
    if ds.len() == 0 {
        0
    } else {
        hex_seq_val(ds.drop_last()) * 16 + hex_val(ds.last())
    }
}

/// The value of a big-endian sequence of decimal digit characters.
pub open spec fn dec_val(ds: Seq<char>) -> int
    decreases ds.len(),
{
    if ds.len() == 0 {
        0
    } else {
        dec_val(ds.drop_last()) * 10 + digit_val(ds.last())
    }
}

/// Every character in `[a, b)` is a decimal digit.
pub open spec fn all_digits(s: Seq<char>, a: int, b: int) -> bool {
    forall|k: int| a <= k < b ==> #[trigger] is_digit(s[k])
}

/// A code point that is a Unicode scalar value, so a `char` can hold it.
pub open spec fn valid_scalar(u: u32) -> bool {
    u < 0xD800 || (0xE000 <= u && u <= 0x10FFFF)
}

/// The first position at or after `i` whose character is not whitespace.
pub open spec fn skip_ws(s: Seq<char>, i: nat) -> nat
    decreases s.len() - i,
{
    if i < s.len() && is_ws(s[i as int]) {
        skip_ws(s, i + 1)
    } else {
        i
    }
}

/// Matching a fixed keyword character by character: the position after it.
/// Matched characters stay consumed on a failure; the first mismatching
/// character is reported without being consumed.
pub open spec fn scan_lit(s: Seq<char>, i: nat, kw: Seq<char>) -> Result<nat, (ErrorV, nat)>
    decreases kw.len(),
{
    if kw.len() == 0 {
        Ok(i)
    } else if i >= s.len() {
        Err((ErrorV::Eof, i))
    } else if s[i as int] == kw[0] {
        scan_lit(s, i + 1, kw.skip(1))
    } else {
        Err((ErrorV::Invalid(seq![s[i as int]]), i))
    }
}

/// The `null` literal at `i`.
pub open spec fn parse_null(s: Seq<char>, i: nat) -> Result<(JsonVal, nat), (ErrorV, nat)> {
    match scan_lit(s, i, seq!['n', 'u', 'l', 'l']) {
        Ok(k) => Ok((JsonVal::Null, k)),
        Err(e) => Err(e),
    }
}

/// The `true` or `false` literal at `i`, chosen by the first character, which
/// is not consumed when it fits neither keyword.
pub open spec fn parse_boolean(s: Seq<char>, i: nat) -> Result<(JsonVal, nat), (ErrorV, nat)> {
    if i >= s.len() {
        Err((ErrorV::Eof, i))
    } else if s[i as int] == 't' {
        match scan_lit(s, i, seq!['t', 'r', 'u', 'e']) {
            Ok(k) => Ok((JsonVal::Bool(true), k)),
            Err(e) => Err(e),
        }
    } else if s[i as int] == 'f' {
        match scan_lit(s, i, seq!['f', 'a', 'l', 's', 'e']) {
            Ok(k) => Ok((JsonVal::Bool(false), k)),
            Err(e) => Err(e),
        }
    } else {
        Err((ErrorV::Invalid(seq![s[i as int]]), i))
    }
}

/// The states of the number machine.
pub enum NumState {
    Sign,
    AfterSign,
    AfterZero,
    Integer,
    AfterDot,
    Fraction,
    AfterExp,
    AfterExpSign,
    Exponent,
    End,
}

/// The states in which the token so far is a complete number.
pub open spec fn num_terminal(st: NumState) -> bool {
    st is AfterZero || st is Integer || st is Fraction || st is Exponent || st is End
}

/// States whose token has a fraction or an exponent, so the number is a float.
pub open spec fn num_float(st: NumState) -> bool {
    st is Fraction || st is Exponent || st is End
}

/// One step of the number machine per character, from state `st` at
/// position `i`: the final state and the position after the token. A failing
/// scan stops right at the offending position.
pub open spec fn num_scan(s: Seq<char>, i: nat, st: NumState) -> Result<
    (NumState, nat),
    (ErrorV, nat),
>
    decreases s.len() - i,
{
    if i >= s.len() {
        if num_terminal(st) {
            Ok((st, i))
        } else {
            Err((ErrorV::Eof, i))
        }
    } else {
        let c = s[i as int];
        match st {
            NumState::Sign => if c == '-' {
                num_scan(s, i + 1, NumState::AfterSign)
            } else if c == '0' {
                num_scan(s, i + 1, NumState::AfterZero)
            } else if is_digit(c) {
                num_scan(s, i + 1, NumState::Integer)
            } else {
                Err((ErrorV::Invalid(seq![c]), i))
            },
            NumState::AfterSign => if c == '0' {
                num_scan(s, i + 1, NumState::AfterZero)
            } else if is_digit(c) {
                num_scan(s, i + 1, NumState::Integer)
            } else {
                Err((ErrorV::Invalid(seq![c]), i))
            },
            NumState::AfterZero => if c == '.' {
                num_scan(s, i + 1, NumState::AfterDot)
            } else if c == 'e' || c == 'E' {
                num_scan(s, i + 1, NumState::AfterExp)
            } else {
                Ok((NumState::AfterZero, i))
            },
            NumState::Integer => if is_digit(c) {
                num_scan(s, i + 1, NumState::Integer)
            } else if c == '.' {
                num_scan(s, i + 1, NumState::AfterDot)
            } else if c == 'e' || c == 'E' {
                num_scan(s, i + 1, NumState::AfterExp)
            } else {
                Ok((NumState::Integer, i))
            },
            NumState::AfterDot => if is_digit(c) {
                num_scan(s, i + 1, NumState::Fraction)
            } else {
                Err((ErrorV::Invalid(seq![c]), i))
            },
            NumState::Fraction => if is_digit(c) {
                num_scan(s, i + 1, NumState::Fraction)
            } else if c == 'e' || c == 'E' {
                num_scan(s, i + 1, NumState::AfterExp)
            } else {
                Ok((NumState::Fraction, i))
            },
            NumState::AfterExp => if c == '+' || c == '-' {
                num_scan(s, i + 1, NumState::AfterExpSign)
            } else if c == '0' {
                num_scan(s, i + 1, NumState::End)
            } else if is_digit(c) {
                num_scan(s, i + 1, NumState::Exponent)
            } else {
                Err((ErrorV::Invalid(seq![c]), i))
            },
            NumState::AfterExpSign => if c != '0' && is_digit(c) {
                num_scan(s, i + 1, NumState::Exponent)
            } else {
                Err((ErrorV::Invalid(seq![c]), i))
            },
            NumState::Exponent => if is_digit(c) {
                num_scan(s, i + 1, NumState::Exponent)
            } else {
                Ok((NumState::Exponent, i))
            },
            NumState::End => Ok((NumState::End, i)),
        }
    }
}

/// A complete number token starting at `i`: its value under the exactness
/// classification and the position after it. An integer token whose value
/// does not fit the host integer is rejected as invalid, with the whole token
/// consumed.
pub open spec fn parse_number(s: Seq<char>, i: nat) -> Result<(NumVal, nat), (ErrorV, nat)> {
    match num_scan(s, i, NumState::Sign) {
        Ok((st, j)) => {
            let tok = s.subrange(i as int, j as int);
            if num_float(st) {
                Ok((NumVal::Flt(tok), j))
            } else if tok.len() > 0 && tok[0] == '-' {
                let m = dec_val(tok.skip(1));
                if m <= 0x8000_0000_0000_0000 {
                    Ok((NumVal::Int((-m) as i64), j))
                } else {
                    Err((ErrorV::Invalid(tok), j))
                }
            } else {
                let m = dec_val(tok);
                if m <= u64::MAX {
                    Ok((NumVal::Uns(m as u64), j))
                } else {
                    Err((ErrorV::Invalid(tok), j))
                }
            }
        },
        Err(e) => Err(e),
    }
}

/// A complete string token starting at its opening quote: the unescaped
/// body and the position after the closing quote. A first character that is
/// no quote is reported without being consumed.
pub open spec fn scan_string(s: Seq<char>, i: nat) -> Result<(Seq<char>, nat), (ErrorV, nat)> {
    if i >= s.len() {
        Err((ErrorV::Eof, i))
    } else if s[i as int] != '"' {
        Err((ErrorV::Invalid(seq![s[i as int]]), i))
    } else {
        str_body(s, i + 1, Seq::empty())
    }
}

/// Inside a string, outside any escape; `acc` is the body unescaped so far.
pub open spec fn str_body(s: Seq<char>, i: nat, acc: Seq<char>) -> Result<
    (Seq<char>, nat),
    (ErrorV, nat),
>
    decreases s.len() - i, 0int,
{
    if i >= s.len() {
        Err((ErrorV::Eof, i))
    } else if s[i as int] == '"' {
        Ok((acc, i + 1))
    } else if s[i as int] == '\\' {
        str_escape(s, i + 1, acc)
    } else {
        str_body(s, i + 1, acc.push(s[i as int]))
    }
}

/// Directly after a backslash; an invalid escape character is not consumed.
pub open spec fn str_escape(s: Seq<char>, i: nat, acc: Seq<char>) -> Result<
    (Seq<char>, nat),
    (ErrorV, nat),
>
    decreases s.len() - i, 0int,
{
    if i >= s.len() {
        Err((ErrorV::Eof, i))
    } else {
        let c = s[i as int];
        if c == 'u' {
            str_unicode(s, i + 1, acc, Seq::empty())
        } else if c == '"' {
            str_body(s, i + 1, acc.push('"'))
        } else if c == '\\' {
            str_body(s, i + 1, acc.push('\\'))
        } else if c == '/' {
            str_body(s, i + 1, acc.push('/'))
        } else if c == 'b' {
            str_body(s, i + 1, acc.push('\u{0008}'))
        } else if c == 'f' {
            str_body(s, i + 1, acc.push('\u{000C}'))
        } else if c == 'n' {
            str_body(s, i + 1, acc.push('\u{000A}'))
        } else if c == 'r' {
            str_body(s, i + 1, acc.push('\u{000D}'))
        } else if c == 't' {
            str_body(s, i + 1, acc.push('\u{0009}'))
        } else {
            Err((ErrorV::Invalid(seq![c]), i))
        }
    }
}

/// Collecting the four hexadecimal digits of a `\u` escape; `digs` holds
/// those seen so far. A non-hex character before the fourth digit, or a code
/// point that is no Unicode scalar value, reports the digits collected; the
/// ending character is not consumed.
pub open spec fn str_unicode(s: Seq<char>, i: nat, acc: Seq<char>, digs: Seq<char>) -> Result<
    (Seq<char>, nat),
    (ErrorV, nat),
>
    decreases s.len() - i, 1int,
{
    if digs.len() == 4 {
        let code = hex_seq_val(digs) as u32;
        if valid_scalar(code) {
            str_body(s, i, acc.push(code as char))
        } else {
            Err((ErrorV::Invalid(seq!['U', '+'] + digs), i))
        }
    } else if i >= s.len() {
        Err((ErrorV::Eof, i))
    } else if is_hex_digit(s[i as int]) {
        str_unicode(s, i + 1, acc, digs.push(s[i as int]))
    } else {
        Err((ErrorV::Invalid(seq!['U', '+'] + digs), i))
    }
}

/// Replaces the value of `key` in place if it is present, else appends the
/// pair: the insert of a mapping whose members keep their order.
pub open spec fn obj_insert(
    members: Seq<(Seq<char>, JsonVal)>,
    key: Seq<char>,
    v: JsonVal,
) -> Seq<(Seq<char>, JsonVal)>
    decreases members.len(),
{
    if members.len() == 0 {
        seq![(key, v)]
    } else if members[0].0 == key {
        seq![(key, v)] + members.skip(1)
    } else {
        seq![members[0]] + obj_insert(members.skip(1), key, v)
    }
}

/// One JSON value: skip whitespace, classify the next character, run the
/// matching machine. End of input before a value gives `Eof` with the
/// whitespace consumed; a character that starts no value is reported without
/// being consumed.
pub open spec fn parse_node(s: Seq<char>, i: nat) -> Result<(JsonVal, nat), (ErrorV, nat)>
    decreases s.len() - i, 1int,
{
    let j = skip_ws(s, i);
    if j < i || j > s.len() {
        Err((ErrorV::Eof, j))
    } else if j == s.len() {
        Err((ErrorV::Eof, j))
    } else {
        let c = s[j as int];
        if c == 'n' {
            parse_null(s, j)
        } else if c == 't' || c == 'f' {
            parse_boolean(s, j)
        } else if c == '-' || is_digit(c) {
            match parse_number(s, j) {
                Ok((n, k)) => Ok((JsonVal::Num(n), k)),
                Err(e) => Err(e),
            }
        } else if c == '"' {
            match scan_string(s, j) {
                Ok((t, k)) => Ok((JsonVal::Str(t), k)),
                Err(e) => Err(e),
            }
        } else if c == '[' {
            parse_array(s, j)
        } else if c == '{' {
            parse_object(s, j)
        } else {
            Err((ErrorV::Invalid(seq![c]), j))
        }
    }
}

/// An array: `[`, then either `]` or elements. A comma must be followed by a
/// value, never by `]`. A character that fits nowhere is reported without
/// being consumed.
pub open spec fn parse_array(s: Seq<char>, i: nat) -> Result<(JsonVal, nat), (ErrorV, nat)>
    decreases s.len() - i, 0int,
{
    if i >= s.len() {
        Err((ErrorV::Eof, i))
    } else if s[i as int] != '[' {
        Err((ErrorV::Invalid(seq![s[i as int]]), i))
    } else {
        let j = skip_ws(s, i + 1);
        if j < i + 1 || j > s.len() {
            Err((ErrorV::Eof, j))
        } else if j == s.len() {
            Err((ErrorV::Eof, j))
        } else if s[j as int] == ']' {
            Ok((JsonVal::Arr(Seq::empty()), j + 1))
        } else {
            arr_elems(s, j, Seq::empty())
        }
    }
}

/// At the start of an array element; `acc` holds the elements settled so far.
pub open spec fn arr_elems(s: Seq<char>, i: nat, acc: Seq<JsonVal>) -> Result<
    (JsonVal, nat),
    (ErrorV, nat),
>
    decreases s.len() - i, 2int,
{
    match parse_node(s, i) {
        Err(e) => Err(e),
        Ok((v, j)) => if j <= i || j > s.len() {
            Err((ErrorV::Eof, j))
        } else {
            let k = skip_ws(s, j);
            if k < j || k > s.len() {
                Err((ErrorV::Eof, k))
            } else if k == s.len() {
                Err((ErrorV::Eof, k))
            } else if s[k as int] == ']' {
                Ok((JsonVal::Arr(acc.push(v)), k + 1))
            } else if s[k as int] == ',' {
                arr_elems(s, k + 1, acc.push(v))
            } else {
                Err((ErrorV::Invalid(seq![s[k as int]]), k))
            }
        },
    }
}

/// An object: `{`, then members. The member list also ends an object right
/// after a comma, so a trailing comma before `}` is accepted.
pub open spec fn parse_object(s: Seq<char>, i: nat) -> Result<(JsonVal, nat), (ErrorV, nat)>
    decreases s.len() - i, 0int,
{
    if i >= s.len() {
        Err((ErrorV::Eof, i))
    } else if s[i as int] != '{' {
        Err((ErrorV::Invalid(seq![s[i as int]]), i))
    } else {
        obj_members(s, i + 1, Seq::empty())
    }
}

/// Before a key or the closing brace; `acc` holds the members settled so far.
/// A character that fits nowhere is reported without being consumed.
pub open spec fn obj_members(s: Seq<char>, i: nat, acc: Seq<(Seq<char>, JsonVal)>) -> Result<
    (JsonVal, nat),
    (ErrorV, nat),
>
    decreases s.len() - i, 2int,
{
    let j = skip_ws(s, i);
    if j < i || j > s.len() {
        Err((ErrorV::Eof, j))
    } else if j == s.len() {
        Err((ErrorV::Eof, j))
    } else if s[j as int] == '}' {
        Ok((JsonVal::Obj(acc), j + 1))
    } else {
        match scan_string(s, j) {
            Err(e) => Err(e),
            Ok((key, k)) => if k <= j || k > s.len() {
                Err((ErrorV::Eof, k))
            } else {
                let m = skip_ws(s, k);
                if m < k || m > s.len() {
                    Err((ErrorV::Eof, m))
                } else if m == s.len() {
                    Err((ErrorV::Eof, m))
                } else if s[m as int] != ':' {
                    Err((ErrorV::Invalid(seq![s[m as int]]), m))
                } else {
                    match parse_node(s, m + 1) {
                        Err(e) => Err(e),
                        Ok((v, p)) => if p <= m || p > s.len() {
                            Err((ErrorV::Eof, p))
                        } else {
                            let q = skip_ws(s, p);
                            if q < p || q > s.len() {
                                Err((ErrorV::Eof, q))
                            } else if q == s.len() {
                                Err((ErrorV::Eof, q))
                            } else if s[q as int] == '}' {
                                Ok((JsonVal::Obj(obj_insert(acc, key, v)), q + 1))
                            } else if s[q as int] == ',' {
                                obj_members(s, q + 1, obj_insert(acc, key, v))
                            } else {
                                Err((ErrorV::Invalid(seq![s[q as int]]), q))
                            }
                        },
                    }
                }
            },
        }
    }
}

/// A whole document: one value, then only whitespace to the end. Anything
/// else after the value is invalid.
pub open spec fn parse_text(s: Seq<char>) -> Result<JsonVal, ErrorV> {
    match parse_node(s, 0) {
        Err((e, p)) => Err(e),
        Ok((v, j)) => {
            let k = skip_ws(s, j);
            if k >= s.len() {
                Ok(v)
            } else {
                Err(ErrorV::Invalid(seq![s[k as int]]))
            }
        },
    }
}

} // verus!
