//! The number machine: a scan through the states of the number grammar, then
//! the conversion of the accepted token to its value.
use vstd::prelude::*;

use crate::bounds::lemma_dec_val_mono;
use crate::bounds::lemma_num_scan;
use crate::bounds::lemma_num_scan_shape;
use crate::error::Error;
use crate::grammar::dec_val;
use crate::grammar::digit_val;
use crate::grammar::num_scan;
use crate::grammar::parse_number;
use crate::grammar::NumState;
use crate::host::char_string;
use crate::host::chars_to_string;
use crate::json::Json;
use crate::model::ErrorV;
use crate::model::JsonVal;
use crate::model::NumVal;
use crate::number::Number;
use crate::parser::copy_range;
use crate::parser::digit;
use crate::parser::Cursor;
use vstd::pervasive::unreached;

verus! {

/// Scans one number token at the cursor and classifies it: no sign, fraction
/// or exponent gives `Unsigned`; a leading minus alone gives `Integer`; a
/// fraction or exponent gives `Float` carrying the token. An integer token
/// whose value does not fit the host integer is reported as invalid.
#[verifier::loop_isolation(false)]
pub fn number(cur: &mut Cursor) -> (r: Result<Json, Error>)
    requires
        old(cur).wf(),
    ensures
        final(cur).wf(),
        final(cur).text@ == old(cur).text@,
        match r {
            Ok(j) => j@ matches JsonVal::Num(nv) && parse_number(
                old(cur).text@,
                old(cur).pos as nat,
            ) == Ok::<(NumVal, nat), (ErrorV, nat)>((nv, final(cur).pos as nat)),
            Err(e) => parse_number(old(cur).text@, old(cur).pos as nat) == Err::<(NumVal, nat), (ErrorV, nat)>((e@, final(cur).pos as nat)),
        },
{
    let ghost s = cur.text@;
    let start = cur.pos;
    let ghost p0 = start as nat;
    let mut st = NumState::Sign;
    loop
        invariant
            cur.wf(),
            cur.text@ == s,
            start <= cur.pos,
            num_scan(s, p0, NumState::Sign) == num_scan(s, cur.pos as nat, st),
            !(st is End),
        decreases s.len() - cur.pos,
    {
        match cur.peek() {
            None => {
                match st {
                    NumState::AfterZero | NumState::Integer | NumState::Fraction
                        | NumState::Exponent => {
                        break ;
                    },
                    _ => {
                        return Err(Error::UnexpectedEof);
                    },
                }
            },
            Some(c) => {
                match st {
                    NumState::Sign => {
                        if c == '-' {
                            cur.next();
                            st = NumState::AfterSign;
                        } else if c == '0' {
                            cur.next();
                            st = NumState::AfterZero;
                        } else if digit(c) {
                            cur.next();
                            st = NumState::Integer;
                        } else {
                            return Err(Error::InvalidCharacter(char_string(c)));
                        }
                    },
                    NumState::AfterSign => {
                        if c == '0' {
                            cur.next();
                            st = NumState::AfterZero;
                        } else if digit(c) {
                            cur.next();
                            st = NumState::Integer;
                        } else {
                            return Err(Error::InvalidCharacter(char_string(c)));
                        }
                    },
                    NumState::AfterZero => {
                        if c == '.' {
                            cur.next();
                            st = NumState::AfterDot;
                        } else if c == 'e' || c == 'E' {
                            cur.next();
                            st = NumState::AfterExp;
                        } else {
                            break ;
                        }
                    },
                    NumState::Integer => {
                        if digit(c) {
                            cur.next();
                        } else if c == '.' {
                            cur.next();
                            st = NumState::AfterDot;
                        } else if c == 'e' || c == 'E' {
                            cur.next();
                            st = NumState::AfterExp;
                        } else {
                            break ;
                        }
                    },
                    NumState::AfterDot => {
                        if digit(c) {
                            cur.next();
                            st = NumState::Fraction;
                        } else {
                            return Err(Error::InvalidCharacter(char_string(c)));
                        }
                    },
                    NumState::Fraction => {
                        if digit(c) {
                            cur.next();
                        } else if c == 'e' || c == 'E' {
                            cur.next();
                            st = NumState::AfterExp;
                        } else {
                            break ;
                        }
                    },
                    NumState::AfterExp => {
                        if c == '+' || c == '-' {
                            cur.next();
                            st = NumState::AfterExpSign;
                        } else if c == '0' {
                            cur.next();
                            st = NumState::End;
                            break ;
                        } else if digit(c) {
                            cur.next();
                            st = NumState::Exponent;
                        } else {
                            return Err(Error::InvalidCharacter(char_string(c)));
                        }
                    },
                    NumState::AfterExpSign => {
                        if c != '0' && digit(c) {
                            cur.next();
                            st = NumState::Exponent;
                        } else {
                            return Err(Error::InvalidCharacter(char_string(c)));
                        }
                    },
                    NumState::Exponent => {
                        if digit(c) {
                            cur.next();
                        } else {
                            break ;
                        }
                    },
                    NumState::End => {
                        break ;
                    },
                }
            },
        }
    }
    let end = cur.pos;
    let ghost j = end as nat;
    let ghost tok = s.subrange(p0 as int, j as int);
    proof {
        assert(num_scan(s, p0, NumState::Sign) == Ok::<(NumState, nat), (ErrorV, nat)>((st, j)));
        lemma_num_scan(s, p0, NumState::Sign);
        lemma_num_scan_shape(s, p0, NumState::Sign);
    }
    match st {
        NumState::AfterZero | NumState::Integer => {
            let neg = cur.text[start] == '-';
            let dstart = if neg {
                start + 1
            } else {
                start
            };
            let ghost digits = s.subrange(dstart as int, j as int);
            proof {
                if neg {
                    assert(digits =~= tok.skip(1));
                } else {
                    assert(digits =~= tok);
                }
                assert(s.subrange(dstart as int, dstart as int) =~= Seq::<char>::empty());
            }
            let mut val: u64 = 0;
            let mut k = dstart;
            while k < end
                invariant
                    dstart <= k <= end,
                    val == dec_val(s.subrange(dstart as int, k as int)),
                decreases end - k,
            {
                let c = cur.text[k];
                proof {
                    assert(crate::grammar::is_digit(s[k as int]));
                }
                let d: u64 = (c as u32 - 48) as u64;
                proof {
                    assert(s.subrange(dstart as int, k as int + 1).drop_last() =~= s.subrange(
                        dstart as int,
                        k as int,
                    ));
                    assert(dec_val(s.subrange(dstart as int, k as int + 1)) == val * 10 + digit_val(
                        c,
                    ));
                }
                let next_val = match val.checked_mul(10) {
                    Some(v10) => v10.checked_add(d),
                    None => None,
                };
                match next_val {
                    Some(v) => {
                        val = v;
                        k = k + 1;
                    },
                    None => {
                        proof {
                            lemma_dec_val_mono(s, dstart as int, k as int + 1, j as int);
                        }
                        let t = copy_range(&cur.text, start, end);
                        return Err(Error::InvalidCharacter(chars_to_string(&t)));
                    },
                }
            }
            if neg {
                if val > 0x8000_0000_0000_0000u64 {
                    let t = copy_range(&cur.text, start, end);
                    return Err(Error::InvalidCharacter(chars_to_string(&t)));
                }
                let n: i64 = if val == 0x8000_0000_0000_0000u64 {
                    i64::MIN
                } else {
                    -(val as i64)
                };
                Ok(Json::Number(Number::Integer(n)))
            } else {
                Ok(Json::Number(Number::Unsigned(val)))
            }
        },
        NumState::Fraction | NumState::Exponent | NumState::End => {
            let t = copy_range(&cur.text, start, end);
            Ok(Json::Number(Number::Float(chars_to_string(&t))))
        },
        _ => unreached(),
    }
}

} // verus!
