//! Position bounds of the grammar functions: a successful scan always moves
//! the position forward and never past the end of the input. The executable
//! machines rely on these facts for loop progress and index safety.
use vstd::prelude::*;

use crate::grammar::all_digits;
use crate::grammar::arr_elems;
use crate::grammar::dec_val;
use crate::grammar::digit_val;
use crate::grammar::is_digit;
use crate::grammar::num_scan;
use crate::grammar::num_terminal;
use crate::grammar::obj_members;
use crate::grammar::parse_array;
use crate::grammar::parse_boolean;
use crate::grammar::parse_node;
use crate::grammar::parse_null;
use crate::grammar::parse_number;
use crate::grammar::parse_object;
use crate::grammar::scan_lit;
use crate::grammar::scan_string;
use crate::grammar::skip_ws;
use crate::grammar::str_body;
use crate::grammar::str_escape;
use crate::grammar::str_unicode;
use crate::grammar::is_ws;
use crate::grammar::NumState;
use crate::model::JsonVal;

verus! {

pub proof fn lemma_skip_ws(s: Seq<char>, i: nat)
    requires
        i <= s.len(),
    ensures
        i <= skip_ws(s, i) <= s.len(),
        skip_ws(s, i) < s.len() ==> !is_ws(s[skip_ws(s, i) as int]),
    decreases s.len() - i,
{
    if i < s.len() && is_ws(s[i as int]) {
        lemma_skip_ws(s, i + 1);
    }
}

pub proof fn lemma_scan_lit(s: Seq<char>, i: nat, kw: Seq<char>)
    requires
        i <= s.len(),
    ensures
        scan_lit(s, i, kw) matches Ok(k) ==> k == i + kw.len() && k <= s.len(),
    decreases kw.len(),
{
    if kw.len() > 0 && i < s.len() && s[i as int] == kw[0] {
        lemma_scan_lit(s, i + 1, kw.skip(1));
    }
}

pub proof fn lemma_parse_null(s: Seq<char>, i: nat)
    requires
        i <= s.len(),
    ensures
        parse_null(s, i) matches Ok((v, j)) ==> i < j <= s.len(),
{
    lemma_scan_lit(s, i, seq!['n', 'u', 'l', 'l']);
}

pub proof fn lemma_parse_boolean(s: Seq<char>, i: nat)
    requires
        i <= s.len(),
    ensures
        parse_boolean(s, i) matches Ok((v, j)) ==> i < j <= s.len(),
{
    lemma_scan_lit(s, i, seq!['t', 'r', 'u', 'e']);
    lemma_scan_lit(s, i, seq!['f', 'a', 'l', 's', 'e']);
}

pub proof fn lemma_num_scan(s: Seq<char>, i: nat, st: NumState)
    requires
        i <= s.len(),
    ensures
        num_scan(s, i, st) matches Ok((stf, j)) ==> i <= j <= s.len() && num_terminal(stf) && (
        !num_terminal(st) ==> i < j),
    decreases s.len() - i,
{
    if i < s.len() {
        lemma_num_scan(s, i + 1, NumState::Sign);
        lemma_num_scan(s, i + 1, NumState::AfterSign);
        lemma_num_scan(s, i + 1, NumState::AfterZero);
        lemma_num_scan(s, i + 1, NumState::Integer);
        lemma_num_scan(s, i + 1, NumState::AfterDot);
        lemma_num_scan(s, i + 1, NumState::Fraction);
        lemma_num_scan(s, i + 1, NumState::AfterExp);
        lemma_num_scan(s, i + 1, NumState::AfterExpSign);
        lemma_num_scan(s, i + 1, NumState::Exponent);
        lemma_num_scan(s, i + 1, NumState::End);
    }
}

/// The states from which every completed token is a float.
pub open spec fn float_reach(st: NumState) -> bool {
    st is AfterDot || st is Fraction || st is AfterExp || st is AfterExpSign || st is Exponent
        || st is End
}

/// The shape of a completed integer token: after a possible leading minus,
/// nothing but decimal digits.
pub proof fn lemma_num_scan_shape(s: Seq<char>, i: nat, st: NumState)
    requires
        i <= s.len(),
    ensures
        num_scan(s, i, st) matches Ok((stf, j)) ==> {
            &&& (float_reach(st) ==> crate::grammar::num_float(stf))
            &&& (st is Integer && !crate::grammar::num_float(stf) ==> all_digits(
                s,
                i as int,
                j as int,
            ))
            &&& (st is AfterZero && !crate::grammar::num_float(stf) ==> j == i)
            &&& (st is AfterSign && !crate::grammar::num_float(stf) ==> j > i && all_digits(
                s,
                i as int,
                j as int,
            ))
            &&& (st is Sign && !crate::grammar::num_float(stf) ==> j > i && i < s.len() && (if s[i as int]
                == '-' {
                j > i + 1 && all_digits(s, i as int + 1, j as int)
            } else {
                all_digits(s, i as int, j as int)
            }))
        },
    decreases s.len() - i,
{
    if i < s.len() {
        let c = s[i as int];
        match st {
            NumState::Sign => {
                if c == '-' {
                    lemma_num_scan_shape(s, i + 1, NumState::AfterSign);
                } else if c == '0' {
                    lemma_num_scan_shape(s, i + 1, NumState::AfterZero);
                    lemma_digit_extend_case(s, i, NumState::AfterZero);
                } else if is_digit(c) {
                    lemma_num_scan_shape(s, i + 1, NumState::Integer);
                    lemma_digit_extend_case(s, i, NumState::Integer);
                }
            },
            NumState::AfterSign => {
                if c == '0' {
                    lemma_num_scan_shape(s, i + 1, NumState::AfterZero);
                    lemma_digit_extend_case(s, i, NumState::AfterZero);
                } else if is_digit(c) {
                    lemma_num_scan_shape(s, i + 1, NumState::Integer);
                    lemma_digit_extend_case(s, i, NumState::Integer);
                }
            },
            NumState::AfterZero => {
                if c == '.' {
                    lemma_num_scan_shape(s, i + 1, NumState::AfterDot);
                } else if c == 'e' || c == 'E' {
                    lemma_num_scan_shape(s, i + 1, NumState::AfterExp);
                }
            },
            NumState::Integer => {
                if is_digit(c) {
                    lemma_num_scan_shape(s, i + 1, NumState::Integer);
                    lemma_digit_extend_case(s, i, NumState::Integer);
                } else if c == '.' {
                    lemma_num_scan_shape(s, i + 1, NumState::AfterDot);
                } else if c == 'e' || c == 'E' {
                    lemma_num_scan_shape(s, i + 1, NumState::AfterExp);
                }
            },
            NumState::AfterDot => {
                if is_digit(c) {
                    lemma_num_scan_shape(s, i + 1, NumState::Fraction);
                }
            },
            NumState::Fraction => {
                if is_digit(c) {
                    lemma_num_scan_shape(s, i + 1, NumState::Fraction);
                } else if c == 'e' || c == 'E' {
                    lemma_num_scan_shape(s, i + 1, NumState::AfterExp);
                }
            },
            NumState::AfterExp => {
                if c == '+' || c == '-' {
                    lemma_num_scan_shape(s, i + 1, NumState::AfterExpSign);
                } else if c == '0' {
                    lemma_num_scan_shape(s, i + 1, NumState::End);
                } else if is_digit(c) {
                    lemma_num_scan_shape(s, i + 1, NumState::Exponent);
                }
            },
            NumState::AfterExpSign => {
                if c != '0' && is_digit(c) {
                    lemma_num_scan_shape(s, i + 1, NumState::Exponent);
                }
            },
            NumState::Exponent => {
                if is_digit(c) {
                    lemma_num_scan_shape(s, i + 1, NumState::Exponent);
                }
            },
            NumState::End => {},
        }
    }
}

/// When a digit at `i` is followed by a completed run from `nxt`, the digits
/// of the completed token reach back to include position `i`.
proof fn lemma_digit_extend_case(s: Seq<char>, i: nat, nxt: NumState)
    requires
        i < s.len(),
        is_digit(s[i as int]),
        num_scan(s, i + 1, nxt) matches Ok((stf, j)) ==> (!crate::grammar::num_float(stf) ==> {
            &&& (nxt is Integer ==> all_digits(s, i as int + 1, j as int))
            &&& (nxt is AfterZero ==> j == i + 1)
        }),
    ensures
        num_scan(s, i + 1, nxt) matches Ok((stf, j)) ==> ((!crate::grammar::num_float(stf) && (nxt
            is Integer || nxt is AfterZero)) ==> all_digits(s, i as int, j as int) && j > i),
{
    lemma_num_scan(s, i + 1, nxt);
    match num_scan(s, i + 1, nxt) {
        Ok((stf, j)) => {
            if !crate::grammar::num_float(stf) && (nxt is Integer || nxt is AfterZero) {
                assert forall|k: int| i <= k < j implies #[trigger] is_digit(s[k]) by {
                    if k > i {
                        assert(all_digits(s, i as int + 1, j as int));
                    }
                }
            }
        },
        Err(e) => {},
    }
}

/// A digit string has a value of at least zero.
pub proof fn lemma_dec_val_nonneg(ds: Seq<char>)
    requires
        all_digits(ds, 0, ds.len() as int),
    ensures
        dec_val(ds) >= 0,
    decreases ds.len(),
{
    if ds.len() > 0 {
        assert(all_digits(ds.drop_last(), 0, ds.len() - 1)) by {
            assert forall|k: int| 0 <= k < ds.len() - 1 implies #[trigger] is_digit(
                ds.drop_last()[k],
            ) by {
                assert(ds.drop_last()[k] == ds[k]);
            }
        }
        lemma_dec_val_nonneg(ds.drop_last());
        assert(is_digit(ds.last()));
    }
}

/// Extending a digit string on the right cannot lower its value.
pub proof fn lemma_dec_val_mono(s: Seq<char>, a: int, k: int, b: int)
    requires
        0 <= a <= k <= b <= s.len(),
        all_digits(s, a, b),
    ensures
        dec_val(s.subrange(a, k)) <= dec_val(s.subrange(a, b)),
    decreases b - k,
{
    if k < b {
        lemma_dec_val_mono(s, a, k + 1, b);
        let pre = s.subrange(a, k);
        let ext = s.subrange(a, k + 1);
        assert(ext.drop_last() =~= pre);
        assert(ext.last() == s[k]);
        assert(all_digits(pre, 0, pre.len() as int)) by {
            assert forall|m: int| 0 <= m < pre.len() implies #[trigger] is_digit(pre[m]) by {
                assert(pre[m] == s[a + m]);
            }
        }
        lemma_dec_val_nonneg(pre);
        assert(is_digit(s[k]));
        assert(digit_val(s[k]) >= 0);
        assert(dec_val(ext) == dec_val(pre) * 10 + digit_val(s[k]));
        assert(dec_val(pre) * 10 >= dec_val(pre));
    }
}

pub proof fn lemma_parse_number(s: Seq<char>, i: nat)
    requires
        i <= s.len(),
    ensures
        parse_number(s, i) matches Ok((n, j)) ==> i < j <= s.len(),
{
    lemma_num_scan(s, i, NumState::Sign);
}

pub proof fn lemma_str_body(s: Seq<char>, i: nat, acc: Seq<char>)
    requires
        i <= s.len(),
    ensures
        str_body(s, i, acc) matches Ok((t, j)) ==> i < j <= s.len(),
    decreases s.len() - i, 0int,
{
    if i < s.len() {
        if s[i as int] == '\\' {
            lemma_str_escape(s, i + 1, acc);
        } else if s[i as int] != '"' {
            lemma_str_body(s, i + 1, acc.push(s[i as int]));
        }
    }
}

pub proof fn lemma_str_escape(s: Seq<char>, i: nat, acc: Seq<char>)
    requires
        i <= s.len(),
    ensures
        str_escape(s, i, acc) matches Ok((t, j)) ==> i < j <= s.len(),
    decreases s.len() - i, 0int,
{
    if i < s.len() {
        let c = s[i as int];
        if c == 'u' {
            lemma_str_unicode(s, i + 1, acc, Seq::empty());
        } else if c == '"' {
            lemma_str_body(s, i + 1, acc.push('"'));
        } else if c == '\\' {
            lemma_str_body(s, i + 1, acc.push('\\'));
        } else if c == '/' {
            lemma_str_body(s, i + 1, acc.push('/'));
        } else if c == 'b' {
            lemma_str_body(s, i + 1, acc.push('\u{0008}'));
        } else if c == 'f' {
            lemma_str_body(s, i + 1, acc.push('\u{000C}'));
        } else if c == 'n' {
            lemma_str_body(s, i + 1, acc.push('\u{000A}'));
        } else if c == 'r' {
            lemma_str_body(s, i + 1, acc.push('\u{000D}'));
        } else if c == 't' {
            lemma_str_body(s, i + 1, acc.push('\u{0009}'));
        }
    }
}

pub proof fn lemma_str_unicode(s: Seq<char>, i: nat, acc: Seq<char>, digs: Seq<char>)
    requires
        i <= s.len(),
    ensures
        str_unicode(s, i, acc, digs) matches Ok((t, j)) ==> i <= j <= s.len(),
    decreases s.len() - i, 1int,
{
    if digs.len() == 4 {
        let code = crate::grammar::hex_seq_val(digs) as u32;
        if crate::grammar::valid_scalar(code) {
            lemma_str_body(s, i, acc.push(code as char));
        }
    } else if i < s.len() && crate::grammar::is_hex_digit(s[i as int]) {
        lemma_str_unicode(s, i + 1, acc, digs.push(s[i as int]));
    }
}

pub proof fn lemma_scan_string(s: Seq<char>, i: nat)
    requires
        i <= s.len(),
    ensures
        scan_string(s, i) matches Ok((t, j)) ==> i < j <= s.len(),
{
    if i < s.len() && s[i as int] == '"' {
        lemma_str_body(s, i + 1, Seq::empty());
    }
}

/// Inserting a key that sits at `idx` (and nowhere earlier) replaces that
/// member in place.
pub proof fn lemma_obj_insert_found(
    es: Seq<(Seq<char>, JsonVal)>,
    key: Seq<char>,
    v: JsonVal,
    idx: int,
)
    requires
        0 <= idx < es.len(),
        es[idx].0 == key,
        forall|m: int| 0 <= m < idx ==> (#[trigger] es[m]).0 != key,
    ensures
        crate::grammar::obj_insert(es, key, v) == es.update(idx, (key, v)),
    decreases idx,
{
    if idx == 0 {
        assert(crate::grammar::obj_insert(es, key, v) =~= es.update(0, (key, v)));
    } else {
        assert(es[0].0 != key);
        assert forall|m: int| 0 <= m < idx - 1 implies (#[trigger] es.skip(1)[m]).0 != key by {
            assert(es.skip(1)[m] == es[m + 1]);
        }
        assert(es.skip(1)[idx - 1] == es[idx]);
        lemma_obj_insert_found(es.skip(1), key, v, idx - 1);
        assert(seq![es[0]] + es.skip(1).update(idx - 1, (key, v)) =~= es.update(idx, (key, v)));
    }
}

/// Inserting a key that is absent appends the member.
pub proof fn lemma_obj_insert_missing(es: Seq<(Seq<char>, JsonVal)>, key: Seq<char>, v: JsonVal)
    requires
        forall|m: int| 0 <= m < es.len() ==> (#[trigger] es[m]).0 != key,
    ensures
        crate::grammar::obj_insert(es, key, v) == es.push((key, v)),
    decreases es.len(),
{
    if es.len() == 0 {
        assert(crate::grammar::obj_insert(es, key, v) =~= es.push((key, v)));
    } else {
        assert(es[0].0 != key);
        assert forall|m: int| 0 <= m < es.skip(1).len() implies (#[trigger] es.skip(1)[m]).0
            != key by {
            assert(es.skip(1)[m] == es[m + 1]);
        }
        lemma_obj_insert_missing(es.skip(1), key, v);
        assert(seq![es[0]] + es.skip(1).push((key, v)) =~= es.push((key, v)));
    }
}

pub proof fn lemma_parse_node(s: Seq<char>, i: nat)
    ensures
        parse_node(s, i) matches Ok((v, j)) ==> i < j <= s.len(),
    decreases s.len() - i, 1int,
{
    if i <= s.len() {
        lemma_skip_ws(s, i);
        let j = skip_ws(s, i);
        if j < s.len() {
            let c = s[j as int];
            if c == 'n' {
                lemma_parse_null(s, j);
            } else if c == 't' || c == 'f' {
                lemma_parse_boolean(s, j);
            } else if c == '-' || crate::grammar::is_digit(c) {
                lemma_parse_number(s, j);
            } else if c == '"' {
                lemma_scan_string(s, j);
            } else if c == '[' {
                lemma_parse_array(s, j);
            } else if c == '{' {
                lemma_parse_object(s, j);
            }
        }
    }
}

pub proof fn lemma_parse_array(s: Seq<char>, i: nat)
    ensures
        parse_array(s, i) matches Ok((v, j)) ==> i < j <= s.len(),
    decreases s.len() - i, 0int,
{
    if i < s.len() && s[i as int] == '[' {
        lemma_skip_ws(s, i + 1);
        let j = skip_ws(s, i + 1);
        if i + 1 <= j <= s.len() && j < s.len() && s[j as int] != ']' {
            lemma_arr_elems(s, j, Seq::empty());
        }
    }
}

pub proof fn lemma_arr_elems(s: Seq<char>, i: nat, acc: Seq<JsonVal>)
    ensures
        arr_elems(s, i, acc) matches Ok((v, j)) ==> i < j <= s.len(),
    decreases s.len() - i, 2int,
{
    lemma_parse_node(s, i);
    match parse_node(s, i) {
        Ok((v, j)) => if i < j <= s.len() {
            lemma_skip_ws(s, j);
            let k = skip_ws(s, j);
            if j <= k <= s.len() && k < s.len() && s[k as int] == ',' {
                lemma_arr_elems(s, k + 1, acc.push(v));
            }
        },
        Err(e) => {},
    }
}

pub proof fn lemma_parse_object(s: Seq<char>, i: nat)
    ensures
        parse_object(s, i) matches Ok((v, j)) ==> i < j <= s.len(),
    decreases s.len() - i, 0int,
{
    if i < s.len() && s[i as int] == '{' {
        lemma_obj_members(s, i + 1, Seq::empty());
    }
}

pub proof fn lemma_obj_members(s: Seq<char>, i: nat, acc: Seq<(Seq<char>, JsonVal)>)
    ensures
        obj_members(s, i, acc) matches Ok((v, j)) ==> i < j <= s.len(),
    decreases s.len() - i, 2int,
{
    if i <= s.len() {
        lemma_skip_ws(s, i);
        let j = skip_ws(s, i);
        if i <= j <= s.len() && j < s.len() && s[j as int] != '}' {
            lemma_scan_string(s, j);
            match scan_string(s, j) {
                Ok((key, k)) => if j < k <= s.len() {
                    lemma_skip_ws(s, k);
                    let m = skip_ws(s, k);
                    if k <= m <= s.len() && m < s.len() && s[m as int] == ':' {
                        lemma_parse_node(s, m + 1);
                        match parse_node(s, m + 1) {
                            Ok((v, p)) => if m < p <= s.len() {
                                lemma_skip_ws(s, p);
                                let q = skip_ws(s, p);
                                if p <= q <= s.len() && q < s.len() && s[q as int] == ',' {
                                    lemma_obj_members(
                                        s,
                                        q + 1,
                                        crate::grammar::obj_insert(acc, key, v),
                                    );
                                }
                            },
                            Err(e) => {},
                        }
                    }
                },
                Err(e) => {},
            }
        }
    }
}

} // verus!
