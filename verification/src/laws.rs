//! The laws of the library: parsing the serialized text of a tree gives the
//! tree back (exactly for round-trip safe trees, up to the classification of
//! non-negative signed integers otherwise), serializing is idempotent under a
//! parse, and every tree the parser returns has unique object keys and
//! complete float tokens.
use vstd::prelude::*;

use crate::grammar::all_digits;
use crate::grammar::dec_val;
use crate::grammar::digit_val;
use crate::grammar::is_digit;
use crate::grammar::is_ws;
use crate::grammar::num_float;
use crate::grammar::num_scan;
use crate::grammar::num_terminal;
use crate::grammar::scan_string;
use crate::grammar::skip_ws;
use crate::grammar::str_body;
use crate::grammar::str_escape;
use crate::grammar::NumState;
use crate::model::dec_text;
use crate::model::digit_char;
use crate::model::esc;
use crate::model::num_text;
use crate::model::ser;
use crate::model::ser_elems;
use crate::model::ser_members;
use crate::model::ErrorV;
use crate::model::JsonVal;
use crate::model::NumVal;

verus! {

broadcast use
    vstd::seq::axiom_seq_index_decreases,
    vstd::seq::axiom_seq_subrange_decreases,
;

/// No backslash anywhere: such a string body needs no escape the serializer
/// does not write.
pub open spec fn no_backslash(t: Seq<char>) -> bool {
    forall|k: int| 0 <= k < t.len() ==> t[k] != '\\'
}

/// The text is one complete float-classified number token.
pub open spec fn float_token(t: Seq<char>) -> bool {
    match num_scan(t, 0, NumState::Sign) {
        Ok((st, j)) => j == t.len() && num_float(st),
        Err(e) => false,
    }
}

/// All member keys are distinct.
pub open spec fn uniq_keys(ms: Seq<(Seq<char>, JsonVal)>) -> bool {
    forall|a: int, b: int| 0 <= a < b < ms.len() ==> (#[trigger] ms[a]).0 != (#[trigger] ms[b]).0
}

/// A tree whose serialized text parses back to the very same tree: strings
/// and keys hold no backslash, signed integers are negative (a non-negative
/// one reads back as unsigned), float tokens are complete number tokens, and
/// object keys are unique.
pub open spec fn rt_safe(v: JsonVal) -> bool
    decreases v,
{
    match v {
        JsonVal::Null => true,
        JsonVal::Bool(b) => true,
        JsonVal::Num(n) => match n {
            NumVal::Uns(u) => true,
            NumVal::Int(i) => i < 0,
            NumVal::Flt(t) => float_token(t),
        },
        JsonVal::Str(t) => no_backslash(t),
        JsonVal::Arr(es) => rt_safe_elems(es),
        JsonVal::Obj(ms) => uniq_keys(ms) && rt_safe_members(ms),
    }
}

/// Every element is round-trip safe.
pub open spec fn rt_safe_elems(es: Seq<JsonVal>) -> bool
    decreases es,
{
    if es.len() == 0 {
        true
    } else {
        rt_safe(es[0]) && rt_safe_elems(es.skip(1))
    }
}

/// Every member has a backslash-free key and a round-trip safe value.
pub open spec fn rt_safe_members(ms: Seq<(Seq<char>, JsonVal)>) -> bool
    decreases ms,
{
    if ms.len() == 0 {
        true
    } else {
        no_backslash(ms[0].0) && rt_safe(ms[0].1) && rt_safe_members(ms.skip(1))
    }
}

/// A position at which no number token continues: the end of the input or a
/// character that no number state consumes.
spec fn num_stop(s: Seq<char>, j: int) -> bool {
    j == s.len() || (!is_digit(s[j]) && s[j] != '.' && s[j] != 'e' && s[j] != 'E')
}

/// Escaping distributes over taking the first character.
proof fn lemma_esc_cons(t: Seq<char>)
    requires
        t.len() > 0,
    ensures
        esc(t) == (if t[0] == '"' {
            seq!['\\', '"']
        } else {
            seq![t[0]]
        }) + esc(t.skip(1)),
    decreases t.len(),
{
    let head: Seq<char> = if t[0] == '"' {
        seq!['\\', '"']
    } else {
        seq![t[0]]
    };
    if t.len() == 1 {
        assert(t.drop_last() =~= Seq::<char>::empty());
        assert(t.skip(1) =~= Seq::<char>::empty());
        if t[0] == '"' {
            assert(esc(t) =~= head + esc(t.skip(1)));
        } else {
            assert(esc(t) =~= head + esc(t.skip(1)));
        }
    } else {
        lemma_esc_cons(t.drop_last());
        assert(t.drop_last()[0] == t[0]);
        assert(t.drop_last().skip(1) =~= t.skip(1).drop_last());
        assert(t.skip(1).last() == t.last());
        if t.last() == '"' {
            assert(esc(t) == esc(t.drop_last()) + seq!['\\', '"']);
            assert((head + esc(t.skip(1).drop_last())) + seq!['\\', '"'] =~= head + (esc(
                t.skip(1).drop_last(),
            ) + seq!['\\', '"']));
        } else {
            assert(esc(t) == esc(t.drop_last()).push(t.last()));
            assert((head + esc(t.skip(1).drop_last())).push(t.last()) =~= head + (esc(
                t.skip(1).drop_last(),
            ).push(t.last())));
        }
    }
}

/// The string machine undoes the serializer's escaping: a backslash-free body
/// written with only its quotes escaped, then a closing quote, reads back
/// unchanged.
proof fn lemma_str_body_rt(s: Seq<char>, i: nat, t: Seq<char>, acc: Seq<char>)
    requires
        no_backslash(t),
        i + esc(t).len() < s.len(),
        s.subrange(i as int, i as int + esc(t).len()) == esc(t),
        s[i as int + esc(t).len()] == '"',
    ensures
        str_body(s, i, acc) == Ok::<(Seq<char>, nat), (ErrorV, nat)>(
            (acc + t, (i + esc(t).len() + 1) as nat),
        ),
    decreases t.len(),
{
    if t.len() == 0 {
        assert(esc(t).len() == 0);
        assert(s[i as int] == '"');
        assert(acc + t =~= acc);
    } else {
        lemma_esc_cons(t);
        let c = t[0];
        assert(t[0] != '\\');
        assert(no_backslash(t.skip(1))) by {
            assert forall|k: int| 0 <= k < t.skip(1).len() implies t.skip(1)[k] != '\\' by {
                assert(t.skip(1)[k] == t[k + 1]);
            }
        }
        if c == '"' {
            assert(esc(t) == seq!['\\', '"'] + esc(t.skip(1)));
            assert(s[i as int] == esc(t)[0]);
            assert(s[i as int] == '\\');
            assert(s[i as int + 1] == esc(t)[1]);
            assert(s[i as int + 1] == '"');
            assert(s.subrange(i as int + 2, i as int + 2 + esc(t.skip(1)).len()) =~= esc(t.skip(1))) by {
                assert forall|k: int| 0 <= k < esc(t.skip(1)).len() implies s.subrange(
                    i as int + 2,
                    i as int + 2 + esc(t.skip(1)).len(),
                )[k] == esc(t.skip(1))[k] by {
                    assert(s[i as int + 2 + k] == s.subrange(i as int, i as int + esc(t).len())[2 + k]);
                    assert(esc(t)[2 + k] == esc(t.skip(1))[k]);
                }
            }
            lemma_str_body_rt(s, (i + 2) as nat, t.skip(1), acc.push('"'));
            assert(str_body(s, i, acc) == str_escape(s, (i + 1) as nat, acc));
            assert(acc.push('"') + t.skip(1) =~= acc + t);
        } else {
            assert(esc(t) == seq![c] + esc(t.skip(1)));
            assert(s[i as int] == esc(t)[0]);
            assert(s[i as int] == c);
            assert(c != '\\');
            assert(s.subrange(i as int + 1, i as int + 1 + esc(t.skip(1)).len()) =~= esc(t.skip(1))) by {
                assert forall|k: int| 0 <= k < esc(t.skip(1)).len() implies s.subrange(
                    i as int + 1,
                    i as int + 1 + esc(t.skip(1)).len(),
                )[k] == esc(t.skip(1))[k] by {
                    assert(s[i as int + 1 + k] == s.subrange(i as int, i as int + esc(t).len())[1 + k]);
                    assert(esc(t)[1 + k] == esc(t.skip(1))[k]);
                }
            }
            lemma_str_body_rt(s, (i + 1) as nat, t.skip(1), acc.push(c));
            assert(acc.push(c) + t.skip(1) =~= acc + t);
        }
    }
}

/// A quoted, minimally escaped, backslash-free body scans back unchanged.
proof fn lemma_scan_string_rt(s: Seq<char>, i: nat, t: Seq<char>)
    requires
        no_backslash(t),
        i + 2 + esc(t).len() <= s.len(),
        s.subrange(i as int, i as int + 2 + esc(t).len()) == seq!['"'] + esc(t) + seq!['"'],
    ensures
        scan_string(s, i) == Ok::<(Seq<char>, nat), (ErrorV, nat)>((t, (i + 2 + esc(t).len()) as nat)),
{
    let w = seq!['"'] + esc(t) + seq!['"'];
    assert(s[i as int] == w[0]);
    assert(s[i as int + 1 + esc(t).len()] == w[1 + esc(t).len() as int]);
    assert(s.subrange(i as int + 1, i as int + 1 + esc(t).len()) =~= esc(t)) by {
        assert forall|k: int| 0 <= k < esc(t).len() implies s.subrange(
            i as int + 1,
            i as int + 1 + esc(t).len(),
        )[k] == esc(t)[k] by {
            assert(s[i as int + 1 + k] == w[1 + k]);
            assert(w[1 + k] == esc(t)[k]);
        }
    }
    lemma_str_body_rt(s, (i + 1) as nat, t, Seq::empty());
    assert(Seq::<char>::empty() + t =~= t);
}

/// Decimal text is nonempty, all digits, and starts with a zero only for zero.
proof fn lemma_dec_text_digits(n: nat)
    ensures
        dec_text(n).len() >= 1,
        all_digits(dec_text(n), 0, dec_text(n).len() as int),
        dec_text(n)[0] == '0' <==> n == 0,
    decreases n,
{
    if n < 10 {
        assert(is_digit(dec_text(n)[0]));
    } else {
        lemma_dec_text_digits(n / 10);
        let pre = dec_text(n / 10);
        assert(dec_text(n) == pre.push(digit_char(n % 10)));
        assert(is_digit(digit_char(n % 10)));
        assert forall|k: int| 0 <= k < dec_text(n).len() implies #[trigger] is_digit(
            dec_text(n)[k],
        ) by {
            if k < pre.len() {
                assert(dec_text(n)[k] == pre[k]);
            }
        }
    }
}

/// Reading the decimal text of a number gives the number back.
proof fn lemma_dec_val_dec_text(n: nat)
    ensures
        dec_val(dec_text(n)) == n,
    decreases n,
{
    if n < 10 {
        assert(seq![digit_char(n)].drop_last() =~= Seq::<char>::empty());
        assert(dec_val(Seq::<char>::empty()) == 0);
        assert(seq![digit_char(n)].last() == digit_char(n));
        assert(digit_val(digit_char(n)) == n);
        assert(dec_val(dec_text(n)) == 0 * 10 + digit_val(digit_char(n)));
    } else {
        lemma_dec_val_dec_text(n / 10);
        let w = dec_text(n);
        assert(w == dec_text(n / 10).push(digit_char(n % 10)));
        assert(w.drop_last() =~= dec_text(n / 10));
        assert(w.last() == digit_char(n % 10));
        assert(digit_val(digit_char(n % 10)) == n % 10);
        assert(dec_val(w) == dec_val(dec_text(n / 10)) * 10 + digit_val(digit_char(n % 10)));
        assert(dec_val(w) == (n / 10) * 10 + n % 10);
    }
}

/// A run of digits ending at a stopping position completes in the Integer
/// state exactly at that position.
proof fn lemma_digits_integer(s: Seq<char>, k: nat, j: nat)
    requires
        k <= j <= s.len(),
        all_digits(s, k as int, j as int),
        num_stop(s, j as int),
    ensures
        num_scan(s, k, NumState::Integer) == Ok::<(NumState, nat), (ErrorV, nat)>((NumState::Integer, j)),
    decreases j - k,
{
    if k < j {
        assert(is_digit(s[k as int]));
        lemma_digits_integer(s, k + 1, j);
    }
}

/// A completed number token embeds in a longer text: scanned in place, it
/// ends at the same offset with the same state, provided nothing right after
/// it could extend it.
proof fn lemma_num_scan_embed(s: Seq<char>, i: nat, t: Seq<char>, k: nat, st: NumState)
    requires
        i + t.len() <= s.len(),
        s.subrange(i as int, i as int + t.len()) == t,
        k <= t.len(),
        num_scan(t, k, st) matches Ok((stf, j)) && j == t.len(),
        num_stop(s, i as int + t.len()),
    ensures
        num_scan(t, k, st) matches Ok((stf, j)) ==> num_scan(s, i + k, st) == Ok::<
            (NumState, nat),
            (ErrorV, nat),
        >((stf, (i + t.len()) as nat)),
    decreases t.len() - k,
{
    if k == t.len() {
        assert(num_terminal(st));
        if i + k < s.len() {
            let c = s[i as int + k];
            assert(!is_digit(c) && c != '.' && c != 'e' && c != 'E');
        }
    } else {
        let c = t[k as int];
        assert(s[i as int + k] == s.subrange(i as int, i as int + t.len())[k as int]);
        assert(s[i as int + k] == c);
        match st {
            NumState::Sign => {
                if c == '-' {
                    lemma_num_scan_embed(s, i, t, k + 1, NumState::AfterSign);
                } else if c == '0' {
                    lemma_num_scan_embed(s, i, t, k + 1, NumState::AfterZero);
                } else if is_digit(c) {
                    lemma_num_scan_embed(s, i, t, k + 1, NumState::Integer);
                }
            },
            NumState::AfterSign => {
                if c == '0' {
                    lemma_num_scan_embed(s, i, t, k + 1, NumState::AfterZero);
                } else if is_digit(c) {
                    lemma_num_scan_embed(s, i, t, k + 1, NumState::Integer);
                }
            },
            NumState::AfterZero => {
                if c == '.' {
                    lemma_num_scan_embed(s, i, t, k + 1, NumState::AfterDot);
                } else if c == 'e' || c == 'E' {
                    lemma_num_scan_embed(s, i, t, k + 1, NumState::AfterExp);
                }
            },
            NumState::Integer => {
                if is_digit(c) {
                    lemma_num_scan_embed(s, i, t, k + 1, NumState::Integer);
                } else if c == '.' {
                    lemma_num_scan_embed(s, i, t, k + 1, NumState::AfterDot);
                } else if c == 'e' || c == 'E' {
                    lemma_num_scan_embed(s, i, t, k + 1, NumState::AfterExp);
                }
            },
            NumState::AfterDot => {
                if is_digit(c) {
                    lemma_num_scan_embed(s, i, t, k + 1, NumState::Fraction);
                }
            },
            NumState::Fraction => {
                if is_digit(c) {
                    lemma_num_scan_embed(s, i, t, k + 1, NumState::Fraction);
                } else if c == 'e' || c == 'E' {
                    lemma_num_scan_embed(s, i, t, k + 1, NumState::AfterExp);
                }
            },
            NumState::AfterExp => {
                if c == '+' || c == '-' {
                    lemma_num_scan_embed(s, i, t, k + 1, NumState::AfterExpSign);
                } else if c == '0' {
                    lemma_num_scan_embed(s, i, t, k + 1, NumState::End);
                } else if is_digit(c) {
                    lemma_num_scan_embed(s, i, t, k + 1, NumState::Exponent);
                }
            },
            NumState::AfterExpSign => {
                if c != '0' && is_digit(c) {
                    lemma_num_scan_embed(s, i, t, k + 1, NumState::Exponent);
                }
            },
            NumState::Exponent => {
                if is_digit(c) {
                    lemma_num_scan_embed(s, i, t, k + 1, NumState::Exponent);
                }
            },
            NumState::End => {},
        }
    }
}

/// The serialized text of a number reads back as that number, when the next
/// character cannot extend the token.
proof fn lemma_parse_number_rt(s: Seq<char>, i: nat, n: NumVal)
    requires
        rt_safe(JsonVal::Num(n)),
        i + num_text(n).len() <= s.len(),
        s.subrange(i as int, i as int + num_text(n).len()) == num_text(n),
        num_stop(s, i as int + num_text(n).len()),
    ensures
        crate::grammar::parse_number(s, i) == Ok::<(NumVal, nat), (ErrorV, nat)>(
            (n, (i + num_text(n).len()) as nat),
        ),
{
    let w = num_text(n);
    let e = i as int + w.len();
    assert forall|k: int| 0 <= k < w.len() implies s[i + k] == w[k] by {
        assert(s[i + k] == s.subrange(i as int, e)[k]);
    }
    match n {
        NumVal::Uns(u) => {
            lemma_dec_text_digits(u as nat);
            lemma_dec_val_dec_text(u as nat);
            if u == 0 {
                assert(w =~= seq!['0']);
                assert(s[i as int] == '0');
                assert(num_scan(s, i, NumState::Sign) == num_scan(s, i + 1, NumState::AfterZero));
                assert(num_scan(s, i + 1, NumState::AfterZero) == Ok::<(NumState, nat), (ErrorV, nat)>(
                    (NumState::AfterZero, (i + 1) as nat),
                ));
                assert(s.subrange(i as int, i as int + 1) =~= w);
                assert(dec_val(seq!['0']) == 0) by {
                    assert(seq!['0'].drop_last() =~= Seq::<char>::empty());
                }
            } else {
                assert(is_digit(w[0]) && w[0] != '0');
                assert(s[i as int] == w[0]);
                assert(all_digits(s, i as int + 1, e)) by {
                    assert forall|k: int| i + 1 <= k < e implies #[trigger] is_digit(s[k]) by {
                        assert(s[k] == w[k - i]);
                        assert(is_digit(w[k - i]));
                    }
                }
                lemma_digits_integer(s, (i + 1) as nat, (i + w.len()) as nat);
                assert(num_scan(s, i, NumState::Sign) == Ok::<(NumState, nat), (ErrorV, nat)>(
                    (NumState::Integer, (i + w.len()) as nat),
                ));
                assert(s.subrange(i as int, e) == w);
                assert(w[0] != '-');
            }
        },
        NumVal::Int(x) => {
            let m = (-(x as int)) as nat;
            lemma_dec_text_digits(m);
            lemma_dec_val_dec_text(m);
            assert(w == seq!['-'] + dec_text(m));
            assert(s[i as int] == w[0]);
            assert(s[i as int] == '-');
            assert(is_digit(w[1]) && w[1] != '0');
            assert(s[i as int + 1] == w[1]);
            assert(all_digits(s, i as int + 2, e)) by {
                assert forall|k: int| i + 2 <= k < e implies #[trigger] is_digit(s[k]) by {
                    assert(s[k] == w[k - i]);
                    assert(w[k - i] == dec_text(m)[k - i - 1]);
                    assert(is_digit(dec_text(m)[k - i - 1]));
                }
            }
            lemma_digits_integer(s, (i + 2) as nat, (i + w.len()) as nat);
            assert(num_scan(s, i, NumState::Sign) == num_scan(s, i + 1, NumState::AfterSign));
            assert(num_scan(s, i + 1, NumState::AfterSign) == num_scan(
                s,
                i + 2,
                NumState::Integer,
            ));
            assert(num_scan(s, i, NumState::Sign) == Ok::<(NumState, nat), (ErrorV, nat)>(
                (NumState::Integer, (i + w.len()) as nat),
            ));
            let tok = s.subrange(i as int, e);
            assert(tok == w);
            assert(tok[0] == '-');
            assert(tok.skip(1) =~= dec_text(m));
            assert(dec_val(tok.skip(1)) == m);
            assert(m <= 0x8000_0000_0000_0000);
            assert((-(m as int)) as i64 == x);
        },
        NumVal::Flt(t) => {
            assert(w == t);
            lemma_num_scan_embed(s, i, t, 0, NumState::Sign);
            assert(s.subrange(i as int, e) == t);
        },
    }
}

/// A character that opens a value: never whitespace and never punctuation.
spec fn starts_value(c: char) -> bool {
    c == 'n' || c == 't' || c == 'f' || c == '"' || c == '[' || c == '{' || c == '-' || is_digit(c)
}

/// Serialized text is nonempty and begins with a value-starting character.
proof fn lemma_ser_first(v: JsonVal)
    requires
        rt_safe(v),
    ensures
        ser(v).len() > 0,
        starts_value(ser(v)[0]),
{
    match v {
        JsonVal::Num(n) => {
            match n {
                NumVal::Uns(u) => {
                    lemma_dec_text_digits(u as nat);
                },
                NumVal::Int(x) => {
                    lemma_dec_text_digits((-(x as int)) as nat);
                    assert(ser(v)[0] == '-');
                },
                NumVal::Flt(t) => {
                    assert(t.len() > 0 && (t[0] == '-' || is_digit(t[0]))) by {
                        if t.len() == 0 {
                            assert(num_scan(t, 0, NumState::Sign) == Err::<
                                (NumState, nat),
                                (ErrorV, nat),
                            >((ErrorV::Eof, 0)));
                        }
                    }
                },
            }
        },
        _ => {},
    }
}

/// A position right after a complete value: the end of the input, or a comma
/// or closing bracket of the enclosing construct.
spec fn delim_at(s: Seq<char>, j: int) -> bool {
    j == s.len() || s[j] == ',' || s[j] == ']' || s[j] == '}'
}

/// Parsing the serialized text of a tree, embedded in a larger text and
/// followed by a delimiter, gives the tree back and consumes exactly it.
/// The round trip of a leaf value: null, a boolean, a number or a string.
proof fn lemma_node_rt_leaf(s: Seq<char>, i: nat, v: JsonVal)
    requires
        rt_safe(v),
        !(v is Arr),
        !(v is Obj),
        i + ser(v).len() <= s.len(),
        s.subrange(i as int, i as int + ser(v).len()) == ser(v),
        delim_at(s, i as int + ser(v).len()),
    ensures
        crate::grammar::parse_node(s, i) == Ok::<(JsonVal, nat), (ErrorV, nat)>(
            (v, (i + ser(v).len()) as nat),
        ),
{
    let w = ser(v);
    let e = i as int + w.len();
    lemma_ser_first(v);
    assert forall|k: int| 0 <= k < w.len() implies s[i + k] == w[k] by {
        assert(s[i + k] == s.subrange(i as int, e)[k]);
    }
    assert(s[i as int] == w[0]);
    assert(!is_ws(s[i as int]));
    assert(crate::grammar::skip_ws(s, i) == i);
    match v {
        JsonVal::Null => {
            lemma_scan_lit_rt(s, i, seq!['n', 'u', 'l', 'l']);
            assert(crate::grammar::scan_lit(s, i, seq!['n', 'u', 'l', 'l']) == Ok::<nat, (ErrorV, nat)>(
                (i + 4) as nat,
            ));
            assert(crate::grammar::parse_null(s, i) == Ok::<(JsonVal, nat), (ErrorV, nat)>(
                (JsonVal::Null, (i + 4) as nat),
            ));
            assert(s[i as int] == 'n');
        },
        JsonVal::Bool(b) => {
            if b {
                lemma_scan_lit_rt(s, i, seq!['t', 'r', 'u', 'e']);
                assert(crate::grammar::parse_boolean(s, i) == Ok::<(JsonVal, nat), (ErrorV, nat)>(
                    (JsonVal::Bool(true), (i + 4) as nat),
                ));
                assert(s[i as int] == 't');
            } else {
                lemma_scan_lit_rt(s, i, seq!['f', 'a', 'l', 's', 'e']);
                assert(crate::grammar::parse_boolean(s, i) == Ok::<(JsonVal, nat), (ErrorV, nat)>(
                    (JsonVal::Bool(false), (i + 5) as nat),
                ));
                assert(s[i as int] == 'f');
            }
        },
        JsonVal::Num(n) => {
            assert(num_stop(s, e));
            lemma_parse_number_rt(s, i, n);
        },
        JsonVal::Str(t) => {
            lemma_scan_string_rt(s, i, t);
        },
        _ => {},
    }
}

proof fn lemma_node_rt(s: Seq<char>, i: nat, v: JsonVal)
    requires
        rt_safe(v),
        i + ser(v).len() <= s.len(),
        s.subrange(i as int, i as int + ser(v).len()) == ser(v),
        delim_at(s, i as int + ser(v).len()),
    ensures
        crate::grammar::parse_node(s, i) == Ok::<(JsonVal, nat), (ErrorV, nat)>(
            (v, (i + ser(v).len()) as nat),
        ),
    decreases v, 0int,
{
    match v {
        JsonVal::Arr(es) => {
            lemma_node_rt_arr(s, i, es);
        },
        JsonVal::Obj(ms) => {
            lemma_node_rt_obj(s, i, ms);
        },
        _ => {
            lemma_node_rt_leaf(s, i, v);
        },
    }
}

/// The round trip of an array value.
proof fn lemma_node_rt_arr(s: Seq<char>, i: nat, es: Seq<JsonVal>)
    requires
        rt_safe(JsonVal::Arr(es)),
        i + ser(JsonVal::Arr(es)).len() <= s.len(),
        s.subrange(i as int, i as int + ser(JsonVal::Arr(es)).len()) == ser(JsonVal::Arr(es)),
        delim_at(s, i as int + ser(JsonVal::Arr(es)).len()),
    ensures
        crate::grammar::parse_node(s, i) == Ok::<(JsonVal, nat), (ErrorV, nat)>(
            (JsonVal::Arr(es), (i + ser(JsonVal::Arr(es)).len()) as nat),
        ),
    decreases es, 1int,
{
    let v = JsonVal::Arr(es);
    let w = ser(v);
    let e = i as int + w.len();
    assert forall|k: int| 0 <= k < w.len() implies s[i + k] == w[k] by {
        assert(s[i + k] == s.subrange(i as int, e)[k]);
    }
    assert(s[i as int] == w[0]);
    assert(s[i as int] == '[');
    assert(!is_ws(s[i as int]));
    assert(crate::grammar::skip_ws(s, i) == i);
    assert(s[e - 1] == w[w.len() - 1]);
    assert(s[e - 1] == ']');
    assert(crate::grammar::parse_node(s, i) == crate::grammar::parse_array(s, i));
    if es.len() == 0 {
        assert(ser_elems(es).len() == 0);
        assert(s[i as int + 1] == ']');
        assert(crate::grammar::skip_ws(s, i + 1) == i + 1);
        assert(es =~= Seq::<JsonVal>::empty());
        assert(crate::grammar::parse_array(s, i) == Ok::<(JsonVal, nat), (ErrorV, nat)>(
            (JsonVal::Arr(es), (i + 2) as nat),
        ));
    } else {
        let sel = ser_elems(es);
        assert(w == seq!['['] + sel + seq![']']);
        assert(s.subrange(i as int + 1, i as int + 1 + sel.len()) =~= sel) by {
            assert forall|k: int| 0 <= k < sel.len() implies s.subrange(
                i as int + 1,
                i as int + 1 + sel.len(),
            )[k] == sel[k] by {
                assert(s[i + 1 + k] == w[1 + k]);
                assert(w[1 + k] == sel[k]);
            }
        }
        assert(rt_safe(es[0]));
        lemma_ser_first(es[0]);
        assert(sel[0] == ser(es[0])[0]);
        assert(s[i as int + 1] == sel[0]);
        assert(!is_ws(s[i as int + 1]) && s[i as int + 1] != ']');
        assert(crate::grammar::skip_ws(s, i + 1) == i + 1);
        assert(s[i as int + 1 + sel.len()] == ']');
        lemma_arr_elems_rt(s, i + 1, es, Seq::empty());
        assert(Seq::<JsonVal>::empty() + es =~= es);
    }
}

/// The round trip of an object value.
proof fn lemma_node_rt_obj(s: Seq<char>, i: nat, ms: Seq<(Seq<char>, JsonVal)>)
    requires
        rt_safe(JsonVal::Obj(ms)),
        i + ser(JsonVal::Obj(ms)).len() <= s.len(),
        s.subrange(i as int, i as int + ser(JsonVal::Obj(ms)).len()) == ser(JsonVal::Obj(ms)),
        delim_at(s, i as int + ser(JsonVal::Obj(ms)).len()),
    ensures
        crate::grammar::parse_node(s, i) == Ok::<(JsonVal, nat), (ErrorV, nat)>(
            (JsonVal::Obj(ms), (i + ser(JsonVal::Obj(ms)).len()) as nat),
        ),
    decreases ms, 1int,
{
    let v = JsonVal::Obj(ms);
    let w = ser(v);
    let e = i as int + w.len();
    assert forall|k: int| 0 <= k < w.len() implies s[i + k] == w[k] by {
        assert(s[i + k] == s.subrange(i as int, e)[k]);
    }
    assert(s[i as int] == w[0]);
    assert(s[i as int] == '{');
    assert(!is_ws(s[i as int]));
    assert(crate::grammar::skip_ws(s, i) == i);
    let sm = ser_members(ms);
    assert(w == seq!['{'] + sm + seq!['}']);
    assert(s.subrange(i as int + 1, i as int + 1 + sm.len()) =~= sm) by {
        assert forall|k: int| 0 <= k < sm.len() implies s.subrange(
            i as int + 1,
            i as int + 1 + sm.len(),
        )[k] == sm[k] by {
            assert(s[i + 1 + k] == w[1 + k]);
            assert(w[1 + k] == sm[k]);
        }
    }
    assert(s[i as int + 1 + sm.len()] == w[1 + sm.len() as int]);
    assert(s[i as int + 1 + sm.len()] == '}');
    lemma_obj_members_rt(s, i + 1, ms, Seq::empty());
    assert(Seq::<(Seq<char>, JsonVal)>::empty() + ms =~= ms);
}

/// A keyword present in the text scans to its end.
proof fn lemma_scan_lit_rt(s: Seq<char>, i: nat, kw: Seq<char>)
    requires
        i + kw.len() <= s.len(),
        forall|k: int| 0 <= k < kw.len() ==> s[i + k] == kw[k],
    ensures
        crate::grammar::scan_lit(s, i, kw) == Ok::<nat, (ErrorV, nat)>((i + kw.len()) as nat),
    decreases kw.len(),
{
    if kw.len() > 0 {
        assert(s[i as int] == kw[0]);
        assert forall|k: int| 0 <= k < kw.skip(1).len() implies s[i + 1 + k] == kw.skip(1)[k] by {
            assert(kw.skip(1)[k] == kw[k + 1]);
        }
        lemma_scan_lit_rt(s, i + 1, kw.skip(1));
    }
}

/// Elements written comma-joined and closed by `]` read back in order.
proof fn lemma_arr_elems_rt(s: Seq<char>, i: nat, es: Seq<JsonVal>, acc: Seq<JsonVal>)
    requires
        es.len() > 0,
        rt_safe_elems(es),
        i + ser_elems(es).len() < s.len(),
        s.subrange(i as int, i as int + ser_elems(es).len()) == ser_elems(es),
        s[i as int + ser_elems(es).len()] == ']',
    ensures
        crate::grammar::arr_elems(s, i, acc) == Ok::<(JsonVal, nat), (ErrorV, nat)>(
            (JsonVal::Arr(acc + es), (i + ser_elems(es).len() + 1) as nat),
        ),
    decreases es, 0int,
{
    let sel = ser_elems(es);
    let e0 = es[0];
    assert(rt_safe(e0));
    lemma_ser_first(e0);
    let w0 = ser(e0);
    assert forall|k: int| 0 <= k < sel.len() implies s[i + k] == sel[k] by {
        assert(s[i + k] == s.subrange(i as int, i as int + sel.len())[k]);
    }
    if es.len() == 1 {
        assert(sel == w0);
        assert(s.subrange(i as int, i as int + w0.len()) == w0);
        assert(s[i as int + w0.len()] == ']');
        lemma_node_rt(s, i, e0);
        let j = i + w0.len();
        assert(crate::grammar::skip_ws(s, j as nat) == j);
        assert(acc.push(e0) =~= acc + es);
    } else {
        assert(sel == w0 + seq![','] + ser_elems(es.skip(1)));
        let rest = ser_elems(es.skip(1));
        assert(s.subrange(i as int, i as int + w0.len()) =~= w0) by {
            assert forall|k: int| 0 <= k < w0.len() implies s.subrange(
                i as int,
                i as int + w0.len(),
            )[k] == w0[k] by {
                assert(sel[k] == w0[k]);
            }
        }
        assert(s[i as int + w0.len()] == sel[w0.len() as int]);
        assert(s[i as int + w0.len()] == ',');
        lemma_node_rt(s, i, e0);
        let j = i + w0.len();
        assert(crate::grammar::skip_ws(s, j as nat) == j);
        assert(rt_safe_elems(es.skip(1)));
        assert(s.subrange(j as int + 1, j as int + 1 + rest.len()) =~= rest) by {
            assert forall|k: int| 0 <= k < rest.len() implies s.subrange(
                j as int + 1,
                j as int + 1 + rest.len(),
            )[k] == rest[k] by {
                assert(s[j as int + 1 + k] == sel[w0.len() + 1 + k]);
                assert(sel[w0.len() + 1 + k] == rest[k]);
            }
        }
        assert(s[j as int + 1 + rest.len()] == ']');
        lemma_arr_elems_rt(s, (j + 1) as nat, es.skip(1), acc.push(e0));
        assert(acc.push(e0) + es.skip(1) =~= acc + es);
    }
}

/// Members written comma-joined and closed by `}` read back in order; with
/// unique keys every insert appends.
proof fn lemma_obj_members_rt(
    s: Seq<char>,
    i: nat,
    ms: Seq<(Seq<char>, JsonVal)>,
    acc: Seq<(Seq<char>, JsonVal)>,
)
    requires
        rt_safe_members(ms),
        uniq_keys(acc + ms),
        i + ser_members(ms).len() < s.len(),
        s.subrange(i as int, i as int + ser_members(ms).len()) == ser_members(ms),
        s[i as int + ser_members(ms).len()] == '}',
    ensures
        crate::grammar::obj_members(s, i, acc) == Ok::<(JsonVal, nat), (ErrorV, nat)>(
            (JsonVal::Obj(acc + ms), (i + ser_members(ms).len() + 1) as nat),
        ),
    decreases ms, 0int,
{
    let sm = ser_members(ms);
    assert forall|k: int| 0 <= k < sm.len() implies s[i + k] == sm[k] by {
        assert(s[i + k] == s.subrange(i as int, i as int + sm.len())[k]);
    }
    if ms.len() == 0 {
        assert(s[i as int] == '}');
        assert(!is_ws('}'));
        assert(crate::grammar::skip_ws(s, i) == i);
        assert(acc =~= acc + ms);
    } else {
        let key = ms[0].0;
        let v0 = ms[0].1;
        let head = seq!['"'] + esc(key) + seq!['"', ':'] + ser(v0);
        assert(no_backslash(key) && rt_safe(v0));
        assert(sm =~= head + (if ms.len() == 1 {
            Seq::<char>::empty()
        } else {
            seq![','] + ser_members(ms.skip(1))
        }));
        assert(sm[0] == head[0]);
        assert(s[i as int] == head[0]);
        assert(s[i as int] == '"');
        assert(crate::grammar::skip_ws(s, i) == i);
        let klen = 2 + esc(key).len();
        assert(s.subrange(i as int, i as int + klen) =~= seq!['"'] + esc(key) + seq!['"']) by {
            assert forall|k: int| 0 <= k < klen implies s.subrange(i as int, i as int + klen)[k]
                == (seq!['"'] + esc(key) + seq!['"'])[k] by {
                assert(s[i + k] == sm[k]);
                assert(sm[k] == head[k]);
                if k == 0 {
                } else if k < 1 + esc(key).len() {
                    assert(head[k] == esc(key)[k - 1]);
                } else {
                    assert(head[k] == '"');
                }
            }
        }
        lemma_scan_string_rt(s, i, key);
        let kq = i + klen;
        assert(sm[klen as int] == head[klen as int]);
        assert(s[kq as int] == head[klen as int]);
        assert(s[kq as int] == ':');
        assert(crate::grammar::skip_ws(s, kq as nat) == kq);
        let w0 = ser(v0);
        lemma_ser_first(v0);
        assert(s.subrange(kq as int + 1, kq as int + 1 + w0.len()) =~= w0) by {
            assert forall|k: int| 0 <= k < w0.len() implies s.subrange(
                kq as int + 1,
                kq as int + 1 + w0.len(),
            )[k] == w0[k] by {
                assert(s[kq as int + 1 + k] == sm[klen + 1 + k]);
                assert(sm[klen + 1 + k] == head[klen + 1 + k]);
                assert(head[klen + 1 + k] == w0[k]);
            }
        }
        let p = kq + 1 + w0.len();
        assert(s[p as int] == if ms.len() == 1 {
            s[i as int + sm.len()]
        } else {
            sm[head.len() as int]
        });
        if ms.len() == 1 {
            assert(p == i + sm.len());
            assert(s[p as int] == '}');
            assert(delim_at(s, kq as int + 1 + w0.len()));
            lemma_node_rt(s, (kq + 1) as nat, v0);
            assert(crate::grammar::skip_ws(s, p as nat) == p);
            assert forall|m: int| 0 <= m < acc.len() implies (#[trigger] acc[m]).0 != key by {
                assert((acc + ms)[m] == acc[m]);
                assert((acc + ms)[acc.len() as int] == ms[0]);
            }
            crate::bounds::lemma_obj_insert_missing(acc, key, v0);
            assert(acc.push((key, v0)) =~= acc + ms) by {
                assert(ms[0] == (key, v0));
            }
        } else {
            assert(s[p as int] == ',');
            assert(delim_at(s, kq as int + 1 + w0.len()));
            lemma_node_rt(s, (kq + 1) as nat, v0);
            assert(crate::grammar::skip_ws(s, p as nat) == p);
            assert forall|m: int| 0 <= m < acc.len() implies (#[trigger] acc[m]).0 != key by {
                assert((acc + ms)[m] == acc[m]);
                assert((acc + ms)[acc.len() as int] == ms[0]);
            }
            crate::bounds::lemma_obj_insert_missing(acc, key, v0);
            let rest = ser_members(ms.skip(1));
            assert(s.subrange(p as int + 1, p as int + 1 + rest.len()) =~= rest) by {
                assert forall|k: int| 0 <= k < rest.len() implies s.subrange(
                    p as int + 1,
                    p as int + 1 + rest.len(),
                )[k] == rest[k] by {
                    assert(s[p as int + 1 + k] == sm[head.len() + 1 + k]);
                    assert(sm[head.len() + 1 + k] == rest[k]);
                }
            }
            assert(s[p as int + 1 + rest.len()] == '}');
            assert(rt_safe_members(ms.skip(1)));
            assert(acc.push((key, v0)) + ms.skip(1) =~= acc + ms) by {
                assert(ms[0] == (key, v0));
            }
            assert(uniq_keys(acc.push((key, v0)) + ms.skip(1)));
            lemma_obj_members_rt(s, (p + 1) as nat, ms.skip(1), acc.push((key, v0)));
        }
    }
}

/// What the parser guarantees of every tree it returns: object keys are
/// unique and every float leaf carries one complete float-classified token.
pub open spec fn parsed_wf(v: JsonVal) -> bool
    decreases v,
{
    match v {
        JsonVal::Null => true,
        JsonVal::Bool(b) => true,
        JsonVal::Num(n) => match n {
            NumVal::Uns(u) => true,
            NumVal::Int(i) => true,
            NumVal::Flt(t) => float_token(t),
        },
        JsonVal::Str(t) => true,
        JsonVal::Arr(es) => parsed_wf_elems(es),
        JsonVal::Obj(ms) => uniq_keys(ms) && parsed_wf_members(ms),
    }
}

/// Every element is parser well-formed.
pub open spec fn parsed_wf_elems(es: Seq<JsonVal>) -> bool
    decreases es,
{
    if es.len() == 0 {
        true
    } else {
        parsed_wf(es[0]) && parsed_wf_elems(es.skip(1))
    }
}

/// Every member value is parser well-formed.
pub open spec fn parsed_wf_members(ms: Seq<(Seq<char>, JsonVal)>) -> bool
    decreases ms,
{
    if ms.len() == 0 {
        true
    } else {
        parsed_wf(ms[0].1) && parsed_wf_members(ms.skip(1))
    }
}

/// Elementwise reading of `parsed_wf_elems`.
proof fn lemma_parsed_wf_elems_index(es: Seq<JsonVal>)
    ensures
        parsed_wf_elems(es) <==> (forall|m: int| 0 <= m < es.len() ==> parsed_wf(#[trigger] es[m])),
    decreases es.len(),
{
    if es.len() > 0 {
        lemma_parsed_wf_elems_index(es.skip(1));
        assert forall|m: int| 0 <= m < es.skip(1).len() implies es.skip(1)[m] == es[m + 1] by {}
        if forall|m: int| 0 <= m < es.len() ==> parsed_wf(#[trigger] es[m]) {
            assert(parsed_wf(es[0]));
            assert forall|m: int| 0 <= m < es.skip(1).len() implies parsed_wf(
                #[trigger] es.skip(1)[m],
            ) by {
                assert(parsed_wf(es[m + 1]));
            }
        }
        if parsed_wf_elems(es) {
            assert forall|m: int| 0 <= m < es.len() implies parsed_wf(#[trigger] es[m]) by {
                if m > 0 {
                    assert(parsed_wf(es.skip(1)[m - 1]));
                }
            }
        }
    }
}

/// Memberwise reading of `parsed_wf_members`.
proof fn lemma_parsed_wf_members_index(ms: Seq<(Seq<char>, JsonVal)>)
    ensures
        parsed_wf_members(ms) <==> (forall|m: int|
            0 <= m < ms.len() ==> parsed_wf((#[trigger] ms[m]).1)),
    decreases ms.len(),
{
    if ms.len() > 0 {
        lemma_parsed_wf_members_index(ms.skip(1));
        if forall|m: int| 0 <= m < ms.len() ==> parsed_wf((#[trigger] ms[m]).1) {
            assert(parsed_wf(ms[0].1));
            assert forall|m: int| 0 <= m < ms.skip(1).len() implies parsed_wf(
                (#[trigger] ms.skip(1)[m]).1,
            ) by {
                assert(ms.skip(1)[m] == ms[m + 1]);
                assert(parsed_wf(ms[m + 1].1));
            }
        }
        if parsed_wf_members(ms) {
            assert forall|m: int| 0 <= m < ms.len() implies parsed_wf((#[trigger] ms[m]).1) by {
                if m > 0 {
                    assert(ms.skip(1)[m - 1] == ms[m]);
                    assert(parsed_wf(ms.skip(1)[m - 1].1));
                }
            }
        }
    }
}

/// A completed number scan, re-run on its own token alone, completes at the
/// token's end in the same state.
proof fn lemma_num_scan_extract(s: Seq<char>, i: nat, k: nat, st: NumState)
    requires
        i <= k <= s.len(),
    ensures
        num_scan(s, k, st) matches Ok((stf, j)) ==> i <= j && num_scan(
            s.subrange(i as int, j as int),
            (k - i) as nat,
            st,
        ) == Ok::<(NumState, nat), (ErrorV, nat)>((stf, (j - i) as nat)),
    decreases s.len() - k,
{
    crate::bounds::lemma_num_scan(s, k, st);
    match num_scan(s, k, st) {
        Ok((stf, j)) => {
            let tok = s.subrange(i as int, j as int);
            assert(tok.len() == j - i);
            if k < s.len() {
                let c = s[k as int];
                if k < j {
                    assert(tok[k - i] == c);
                }
                match st {
                    NumState::Sign => {
                        if c == '-' {
                            lemma_num_scan_extract(s, i, k + 1, NumState::AfterSign);
                        } else if c == '0' {
                            lemma_num_scan_extract(s, i, k + 1, NumState::AfterZero);
                        } else if is_digit(c) {
                            lemma_num_scan_extract(s, i, k + 1, NumState::Integer);
                        }
                    },
                    NumState::AfterSign => {
                        if c == '0' {
                            lemma_num_scan_extract(s, i, k + 1, NumState::AfterZero);
                        } else if is_digit(c) {
                            lemma_num_scan_extract(s, i, k + 1, NumState::Integer);
                        }
                    },
                    NumState::AfterZero => {
                        if c == '.' {
                            lemma_num_scan_extract(s, i, k + 1, NumState::AfterDot);
                        } else if c == 'e' || c == 'E' {
                            lemma_num_scan_extract(s, i, k + 1, NumState::AfterExp);
                        }
                    },
                    NumState::Integer => {
                        if is_digit(c) {
                            lemma_num_scan_extract(s, i, k + 1, NumState::Integer);
                        } else if c == '.' {
                            lemma_num_scan_extract(s, i, k + 1, NumState::AfterDot);
                        } else if c == 'e' || c == 'E' {
                            lemma_num_scan_extract(s, i, k + 1, NumState::AfterExp);
                        }
                    },
                    NumState::AfterDot => {
                        if is_digit(c) {
                            lemma_num_scan_extract(s, i, k + 1, NumState::Fraction);
                        }
                    },
                    NumState::Fraction => {
                        if is_digit(c) {
                            lemma_num_scan_extract(s, i, k + 1, NumState::Fraction);
                        } else if c == 'e' || c == 'E' {
                            lemma_num_scan_extract(s, i, k + 1, NumState::AfterExp);
                        }
                    },
                    NumState::AfterExp => {
                        if c == '+' || c == '-' {
                            lemma_num_scan_extract(s, i, k + 1, NumState::AfterExpSign);
                        } else if c == '0' {
                            lemma_num_scan_extract(s, i, k + 1, NumState::End);
                        } else if is_digit(c) {
                            lemma_num_scan_extract(s, i, k + 1, NumState::Exponent);
                        }
                    },
                    NumState::AfterExpSign => {
                        if c != '0' && is_digit(c) {
                            lemma_num_scan_extract(s, i, k + 1, NumState::Exponent);
                        }
                    },
                    NumState::Exponent => {
                        if is_digit(c) {
                            lemma_num_scan_extract(s, i, k + 1, NumState::Exponent);
                        }
                    },
                    NumState::End => {},
                }
            } else {
                assert(j == k);
                assert(stf == st);
                assert(num_terminal(st));
            }
        },
        Err(e) => {},
    }
}

/// Inserting a well-formed value under any key keeps the member list uniquely
/// keyed, and every member of the result is the new pair or one of the old.
proof fn lemma_obj_insert_preserves(ms: Seq<(Seq<char>, JsonVal)>, key: Seq<char>, v: JsonVal)
    requires
        uniq_keys(ms),
    ensures
        uniq_keys(crate::grammar::obj_insert(ms, key, v)),
        forall|m: int|
            0 <= m < crate::grammar::obj_insert(ms, key, v).len() ==> (#[trigger] crate::grammar::obj_insert(
                ms,
                key,
                v,
            )[m]) == (key, v) || exists|n: int|
                0 <= n < ms.len() && ms[n] == crate::grammar::obj_insert(ms, key, v)[m],
    decreases ms.len(),
{
    let r = crate::grammar::obj_insert(ms, key, v);
    if ms.len() == 0 {
        assert(r =~= seq![(key, v)]);
    } else if ms[0].0 == key {
        assert(r =~= seq![(key, v)] + ms.skip(1));
        assert forall|a: int, b: int| 0 <= a < b < r.len() implies (#[trigger] r[a]).0 != (
        #[trigger] r[b]).0 by {
            if a == 0 {
                assert(r[b] == ms[b]);
                assert(ms[0].0 != ms[b].0);
            } else {
                assert(r[a] == ms[a]);
                assert(r[b] == ms[b]);
            }
        }
        assert forall|m: int| 0 <= m < r.len() implies (#[trigger] r[m]) == (key, v) || exists|
            n: int,
        | 0 <= n < ms.len() && ms[n] == r[m] by {
            if m > 0 {
                assert(ms[m] == r[m]);
            }
        }
    } else {
        assert forall|a: int, b: int| 0 <= a < b < ms.skip(1).len() implies (#[trigger] ms.skip(
            1,
        )[a]).0 != (#[trigger] ms.skip(1)[b]).0 by {
            assert(ms.skip(1)[a] == ms[a + 1]);
            assert(ms.skip(1)[b] == ms[b + 1]);
        }
        lemma_obj_insert_preserves(ms.skip(1), key, v);
        let rt = crate::grammar::obj_insert(ms.skip(1), key, v);
        assert(r =~= seq![ms[0]] + rt);
        assert forall|m: int| 0 <= m < r.len() implies (#[trigger] r[m]) == (key, v) || exists|
            n: int,
        | 0 <= n < ms.len() && ms[n] == r[m] by {
            if m == 0 {
                assert(ms[0] == r[0]);
            } else {
                assert(r[m] == rt[m - 1]);
                if rt[m - 1] == (key, v) {
                } else {
                    let n0 = choose|n: int| 0 <= n < ms.skip(1).len() && ms.skip(1)[n] == rt[m - 1];
                    assert(ms[n0 + 1] == rt[m - 1]);
                }
            }
        }
        assert forall|a: int, b: int| 0 <= a < b < r.len() implies (#[trigger] r[a]).0 != (
        #[trigger] r[b]).0 by {
            if a == 0 {
                assert(r[b] == rt[b - 1]);
                if rt[b - 1] == (key, v) {
                    assert(ms[0].0 != key);
                } else {
                    let n0 = choose|n: int|
                        0 <= n < ms.skip(1).len() && ms.skip(1)[n] == rt[b - 1];
                    assert(ms.skip(1)[n0] == ms[n0 + 1]);
                    assert(ms[0].0 != ms[n0 + 1].0);
                }
            } else {
                assert(r[a] == rt[a - 1]);
                assert(r[b] == rt[b - 1]);
            }
        }
    }
}

/// Every number the number machine returns is parser well-formed; in
/// particular a float carries one complete float-classified token.
proof fn lemma_parse_number_wf(s: Seq<char>, i: nat)
    requires
        i <= s.len(),
    ensures
        crate::grammar::parse_number(s, i) matches Ok((n, j)) ==> parsed_wf(JsonVal::Num(n)),
{
    crate::bounds::lemma_num_scan(s, i, NumState::Sign);
    lemma_num_scan_extract(s, i, i, NumState::Sign);
    match num_scan(s, i, NumState::Sign) {
        Ok((st, j)) => {
            let tok = s.subrange(i as int, j as int);
            assert(num_scan(tok, 0, NumState::Sign) == Ok::<(NumState, nat), (ErrorV, nat)>(
                (st, (j - i) as nat),
            ));
            assert(tok.len() == j - i);
            if num_float(st) {
                assert(float_token(tok));
            }
        },
        Err(e) => {},
    }
}

/// Every tree the node dispatcher returns is parser well-formed.
proof fn lemma_parse_node_wf(s: Seq<char>, i: nat)
    ensures
        crate::grammar::parse_node(s, i) matches Ok((v, j)) ==> parsed_wf(v),
    decreases s.len() - i, 1int,
{
    if i <= s.len() {
        crate::bounds::lemma_skip_ws(s, i);
        let j = skip_ws(s, i);
        if j < s.len() {
            let c = s[j as int];
            if c == '-' || is_digit(c) {
                lemma_parse_number_wf(s, j);
            } else if c == '[' {
                lemma_parse_array_wf(s, j);
            } else if c == '{' {
                lemma_parse_object_wf(s, j);
            }
        }
    }
}

/// Every tree the array machine returns is parser well-formed.
proof fn lemma_parse_array_wf(s: Seq<char>, i: nat)
    ensures
        crate::grammar::parse_array(s, i) matches Ok((v, j)) ==> parsed_wf(v),
    decreases s.len() - i, 0int,
{
    if i < s.len() && s[i as int] == '[' {
        crate::bounds::lemma_skip_ws(s, i + 1);
        let j = skip_ws(s, i + 1);
        if i + 1 <= j <= s.len() && j < s.len() && s[j as int] != ']' {
            lemma_arr_elems_wf(s, j, Seq::empty());
        }
    }
}

/// Array elements accumulate parser well-formed.
proof fn lemma_arr_elems_wf(s: Seq<char>, i: nat, acc: Seq<JsonVal>)
    requires
        parsed_wf_elems(acc),
    ensures
        crate::grammar::arr_elems(s, i, acc) matches Ok((v, j)) ==> parsed_wf(v),
    decreases s.len() - i, 2int,
{
    lemma_parse_node_wf(s, i);
    crate::bounds::lemma_parse_node(s, i);
    match crate::grammar::parse_node(s, i) {
        Ok((v, j)) => if i < j <= s.len() {
            crate::bounds::lemma_skip_ws(s, j);
            let k = skip_ws(s, j);
            assert(parsed_wf_elems(acc.push(v))) by {
                lemma_parsed_wf_elems_index(acc);
                lemma_parsed_wf_elems_index(acc.push(v));
                assert forall|m: int| 0 <= m < acc.push(v).len() implies parsed_wf(
                    #[trigger] acc.push(v)[m],
                ) by {
                    if m < acc.len() {
                        assert(acc.push(v)[m] == acc[m]);
                    }
                }
            }
            if j <= k <= s.len() && k < s.len() && s[k as int] == ',' {
                lemma_arr_elems_wf(s, k + 1, acc.push(v));
            }
        },
        Err(e) => {},
    }
}

/// Every tree the object machine returns is parser well-formed.
proof fn lemma_parse_object_wf(s: Seq<char>, i: nat)
    ensures
        crate::grammar::parse_object(s, i) matches Ok((v, j)) ==> parsed_wf(v),
    decreases s.len() - i, 0int,
{
    if i < s.len() && s[i as int] == '{' {
        lemma_obj_members_wf(s, i + 1, Seq::empty());
    }
}

/// Object members accumulate uniquely keyed and parser well-formed.
proof fn lemma_obj_members_wf(s: Seq<char>, i: nat, acc: Seq<(Seq<char>, JsonVal)>)
    requires
        uniq_keys(acc),
        parsed_wf_members(acc),
    ensures
        crate::grammar::obj_members(s, i, acc) matches Ok((v, j)) ==> parsed_wf(v),
    decreases s.len() - i, 2int,
{
    if i <= s.len() {
        crate::bounds::lemma_skip_ws(s, i);
        let j = skip_ws(s, i);
        if i <= j <= s.len() && j < s.len() && s[j as int] != '}' {
            crate::bounds::lemma_scan_string(s, j);
            match scan_string(s, j) {
                Ok((key, k)) => if j < k <= s.len() {
                    crate::bounds::lemma_skip_ws(s, k);
                    let m = skip_ws(s, k);
                    if k <= m <= s.len() && m < s.len() && s[m as int] == ':' {
                        lemma_parse_node_wf(s, m + 1);
                        crate::bounds::lemma_parse_node(s, m + 1);
                        match crate::grammar::parse_node(s, m + 1) {
                            Ok((v, p)) => if m < p <= s.len() {
                                crate::bounds::lemma_skip_ws(s, p);
                                let q = skip_ws(s, p);
                                let acc2 = crate::grammar::obj_insert(acc, key, v);
                                assert(uniq_keys(acc2) && parsed_wf_members(acc2)) by {
                                    lemma_obj_insert_preserves(acc, key, v);
                                    lemma_parsed_wf_members_index(acc);
                                    lemma_parsed_wf_members_index(acc2);
                                    assert forall|w: int| 0 <= w < acc2.len() implies parsed_wf(
                                        (#[trigger] acc2[w]).1,
                                    ) by {
                                        if acc2[w] == (key, v) {
                                        } else {
                                            let n0 = choose|n: int|
                                                0 <= n < acc.len() && acc[n] == acc2[w];
                                            assert(parsed_wf(acc[n0].1));
                                        }
                                    }
                                }
                                if p <= q <= s.len() && q < s.len() && s[q as int] == ',' {
                                    lemma_obj_members_wf(s, q + 1, acc2);
                                }
                            },
                            Err(e) => {},
                        }
                    }
                },
                Err(e) => {},
            }
        }
    }
}

/// Every tree a successful parse returns is parser well-formed: its object
/// keys are unique and its float leaves carry complete float tokens.
pub proof fn lemma_parse_text_wf(s: Seq<char>)
    ensures
        crate::grammar::parse_text(s) matches Ok(v) ==> parsed_wf(v),
{
    lemma_parse_node_wf(s, 0);
}

/// Round trip: for a round-trip safe tree, parsing the serialized text gives
/// exactly the tree back.
pub proof fn lemma_parse_serialize(v: JsonVal)
    requires
        rt_safe(v),
    ensures
        crate::grammar::parse_text(ser(v)) == Ok::<JsonVal, ErrorV>(v),
{
    let s = ser(v);
    assert(s.subrange(0, s.len() as int) =~= s);
    lemma_node_rt(s, 0, v);
    assert(crate::grammar::skip_ws(s, s.len()) == s.len());
}

/// A tree whose serialized text parses back without loss of content, though a
/// non-negative signed integer may read back as unsigned: strings and keys
/// hold no backslash, float tokens are complete number tokens, and object
/// keys are unique.
pub open spec fn idem_safe(v: JsonVal) -> bool
    decreases v,
{
    match v {
        JsonVal::Null => true,
        JsonVal::Bool(b) => true,
        JsonVal::Num(n) => match n {
            NumVal::Uns(u) => true,
            NumVal::Int(i) => true,
            NumVal::Flt(t) => float_token(t),
        },
        JsonVal::Str(t) => no_backslash(t),
        JsonVal::Arr(es) => idem_safe_elems(es),
        JsonVal::Obj(ms) => uniq_keys(ms) && idem_safe_members(ms),
    }
}

/// Every element is idempotence safe.
pub open spec fn idem_safe_elems(es: Seq<JsonVal>) -> bool
    decreases es,
{
    if es.len() == 0 {
        true
    } else {
        idem_safe(es[0]) && idem_safe_elems(es.skip(1))
    }
}

/// Every member has a backslash-free key and an idempotence-safe value.
pub open spec fn idem_safe_members(ms: Seq<(Seq<char>, JsonVal)>) -> bool
    decreases ms,
{
    if ms.len() == 0 {
        true
    } else {
        no_backslash(ms[0].0) && idem_safe(ms[0].1) && idem_safe_members(ms.skip(1))
    }
}

/// The tree as the parser would classify it: a non-negative signed integer
/// becomes unsigned, since its token carries no sign; all else is unchanged.
pub open spec fn norm(v: JsonVal) -> JsonVal
    decreases v,
{
    match v {
        JsonVal::Num(n) => match n {
            NumVal::Int(i) => if i >= 0 {
                JsonVal::Num(NumVal::Uns(i as u64))
            } else {
                v
            },
            _ => v,
        },
        JsonVal::Arr(es) => JsonVal::Arr(norm_elems(es)),
        JsonVal::Obj(ms) => JsonVal::Obj(norm_members(ms)),
        _ => v,
    }
}

/// Elementwise normalization.
pub open spec fn norm_elems(es: Seq<JsonVal>) -> Seq<JsonVal>
    decreases es,
{
    if es.len() == 0 {
        Seq::empty()
    } else {
        norm_elems(es.drop_last()).push(norm(es.last()))
    }
}

/// Memberwise normalization; keys are kept.
pub open spec fn norm_members(ms: Seq<(Seq<char>, JsonVal)>) -> Seq<(Seq<char>, JsonVal)>
    decreases ms,
{
    if ms.len() == 0 {
        Seq::empty()
    } else {
        norm_members(ms.drop_last()).push((ms.last().0, norm(ms.last().1)))
    }
}

/// Normalization is elementwise.
proof fn lemma_norm_elems_index(es: Seq<JsonVal>)
    ensures
        norm_elems(es).len() == es.len(),
        forall|k: int| 0 <= k < es.len() ==> #[trigger] norm_elems(es)[k] == norm(es[k]),
    decreases es.len(),
{
    if es.len() > 0 {
        lemma_norm_elems_index(es.drop_last());
    }
}

/// Normalization is memberwise and keeps keys.
proof fn lemma_norm_members_index(ms: Seq<(Seq<char>, JsonVal)>)
    ensures
        norm_members(ms).len() == ms.len(),
        forall|k: int|
            0 <= k < ms.len() ==> #[trigger] norm_members(ms)[k] == (ms[k].0, norm(ms[k].1)),
    decreases ms.len(),
{
    if ms.len() > 0 {
        lemma_norm_members_index(ms.drop_last());
    }
}

/// Normalizing does not change the serialized text: a non-negative signed
/// integer and the unsigned of the same value write the same decimal token.
proof fn lemma_ser_norm(v: JsonVal)
    ensures
        ser(norm(v)) == ser(v),
    decreases v,
{
    match v {
        JsonVal::Num(n) => {
            match n {
                NumVal::Int(i) => {
                    if i >= 0 {
                        assert((i as u64) as nat == i as nat);
                    }
                },
                _ => {},
            }
        },
        JsonVal::Arr(es) => {
            lemma_ser_elems_norm(es);
        },
        JsonVal::Obj(ms) => {
            lemma_ser_members_norm(ms);
        },
        _ => {},
    }
}

proof fn lemma_ser_elems_norm(es: Seq<JsonVal>)
    ensures
        ser_elems(norm_elems(es)) == ser_elems(es),
    decreases es,
{
    lemma_norm_elems_index(es);
    if es.len() > 0 {
        assert(norm_elems(es)[0] == norm(es[0]));
        lemma_ser_norm(es[0]);
        if es.len() > 1 {
            assert(norm_elems(es).skip(1) =~= norm_elems(es.skip(1))) by {
                lemma_norm_elems_index(es.skip(1));
                assert forall|k: int| 0 <= k < es.len() - 1 implies norm_elems(es).skip(1)[k]
                    == norm_elems(es.skip(1))[k] by {
                    assert(norm_elems(es).skip(1)[k] == norm_elems(es)[k + 1]);
                    assert(norm_elems(es)[k + 1] == norm(es[k + 1]));
                    assert(norm_elems(es.skip(1))[k] == norm(es.skip(1)[k]));
                    assert(es.skip(1)[k] == es[k + 1]);
                }
            }
            lemma_ser_elems_norm(es.skip(1));
        }
    }
}

proof fn lemma_ser_members_norm(ms: Seq<(Seq<char>, JsonVal)>)
    ensures
        ser_members(norm_members(ms)) == ser_members(ms),
    decreases ms,
{
    lemma_norm_members_index(ms);
    if ms.len() > 0 {
        assert(norm_members(ms)[0] == (ms[0].0, norm(ms[0].1)));
        lemma_ser_norm(ms[0].1);
        if ms.len() > 1 {
            assert(norm_members(ms).skip(1) =~= norm_members(ms.skip(1))) by {
                lemma_norm_members_index(ms.skip(1));
                assert forall|k: int| 0 <= k < ms.len() - 1 implies norm_members(ms).skip(1)[k]
                    == norm_members(ms.skip(1))[k] by {
                    assert(norm_members(ms).skip(1)[k] == norm_members(ms)[k + 1]);
                    assert(norm_members(ms)[k + 1] == (ms[k + 1].0, norm(ms[k + 1].1)));
                    assert(norm_members(ms.skip(1))[k] == (ms.skip(1)[k].0, norm(
                        ms.skip(1)[k].1,
                    )));
                    assert(ms.skip(1)[k] == ms[k + 1]);
                }
            }
            lemma_ser_members_norm(ms.skip(1));
        }
    }
}

/// The normalization of an idempotence-safe tree is round-trip safe.
proof fn lemma_norm_rt_safe(v: JsonVal)
    requires
        idem_safe(v),
    ensures
        rt_safe(norm(v)),
    decreases v,
{
    match v {
        JsonVal::Arr(es) => {
            lemma_norm_elems_rt_safe(es);
        },
        JsonVal::Obj(ms) => {
            lemma_norm_members_rt_safe(ms);
            lemma_norm_members_index(ms);
            assert forall|a: int, b: int|
                0 <= a < b < norm_members(ms).len() implies (#[trigger] norm_members(ms)[a]).0 != (
            #[trigger] norm_members(ms)[b]).0 by {
                assert(norm_members(ms)[a].0 == ms[a].0);
                assert(norm_members(ms)[b].0 == ms[b].0);
                assert(ms[a].0 != ms[b].0);
            }
        },
        _ => {},
    }
}

proof fn lemma_norm_elems_rt_safe(es: Seq<JsonVal>)
    requires
        idem_safe_elems(es),
    ensures
        rt_safe_elems(norm_elems(es)),
    decreases es,
{
    lemma_norm_elems_index(es);
    if es.len() > 0 {
        lemma_norm_rt_safe(es[0]);
        lemma_norm_elems_rt_safe(es.skip(1));
        assert(norm_elems(es)[0] == norm(es[0]));
        assert(norm_elems(es).skip(1) =~= norm_elems(es.skip(1))) by {
            lemma_norm_elems_index(es.skip(1));
            assert forall|k: int| 0 <= k < es.len() - 1 implies norm_elems(es).skip(1)[k]
                == norm_elems(es.skip(1))[k] by {
                assert(norm_elems(es).skip(1)[k] == norm_elems(es)[k + 1]);
                assert(norm_elems(es)[k + 1] == norm(es[k + 1]));
                assert(norm_elems(es.skip(1))[k] == norm(es.skip(1)[k]));
                assert(es.skip(1)[k] == es[k + 1]);
            }
        }
    } else {
        assert(norm_elems(es).len() == 0);
    }
}

proof fn lemma_norm_members_rt_safe(ms: Seq<(Seq<char>, JsonVal)>)
    requires
        idem_safe_members(ms),
    ensures
        rt_safe_members(norm_members(ms)),
    decreases ms,
{
    lemma_norm_members_index(ms);
    if ms.len() > 0 {
        lemma_norm_rt_safe(ms[0].1);
        lemma_norm_members_rt_safe(ms.skip(1));
        assert(norm_members(ms)[0] == (ms[0].0, norm(ms[0].1)));
        assert(norm_members(ms).skip(1) =~= norm_members(ms.skip(1))) by {
            lemma_norm_members_index(ms.skip(1));
            assert forall|k: int| 0 <= k < ms.len() - 1 implies norm_members(ms).skip(1)[k]
                == norm_members(ms.skip(1))[k] by {
                assert(norm_members(ms).skip(1)[k] == norm_members(ms)[k + 1]);
                assert(norm_members(ms)[k + 1] == (ms[k + 1].0, norm(ms[k + 1].1)));
                assert(norm_members(ms.skip(1))[k] == (ms.skip(1)[k].0, norm(ms.skip(1)[k].1)));
                assert(ms.skip(1)[k] == ms[k + 1]);
            }
        }
    } else {
        assert(norm_members(ms).len() == 0);
    }
}

/// Round trip up to classification: parsing the serialized text of an
/// idempotence-safe tree gives its normalization, where a non-negative signed
/// integer reads back as the unsigned of the same value.
pub proof fn lemma_parse_serialize_normalized(v: JsonVal)
    requires
        idem_safe(v),
    ensures
        crate::grammar::parse_text(ser(v)) == Ok::<JsonVal, ErrorV>(norm(v)),
{
    lemma_ser_norm(v);
    lemma_norm_rt_safe(v);
    lemma_parse_serialize(norm(v));
}

/// Idempotence: serializing, parsing and serializing again gives the same
/// text as serializing once.
pub proof fn lemma_serialize_idempotent(v: JsonVal)
    requires
        idem_safe(v),
    ensures
        crate::grammar::parse_text(ser(v)) matches Ok(w) && ser(w) == ser(v),
{
    lemma_parse_serialize_normalized(v);
    lemma_ser_norm(v);
}

} // verus!
