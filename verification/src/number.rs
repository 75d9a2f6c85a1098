//! The number type with its exactness classification, and its rendering.
use vstd::prelude::*;

use crate::host::chars_to_string;
use crate::model::dec_text;
use crate::model::digit_char;
use crate::model::num_text;
use crate::model::NumVal;

verus! {

/// A parsed number. A token without sign, fraction and exponent is
/// `Unsigned`; one with a leading minus and no fraction or exponent is
/// `Integer`; one with a fraction or an exponent is `Float` and keeps its
/// source token, so that rendering it gives the token back unchanged.
#[derive(Clone, Debug, PartialEq)]
pub enum Number {
    Unsigned(u64),
    Integer(i64),
    Float(String),
}

impl View for Number {
    type V = NumVal;

    open spec fn view(&self) -> NumVal {
        match self {
            Number::Unsigned(u) => NumVal::Uns(*u),
            Number::Integer(i) => NumVal::Int(*i),
            Number::Float(t) => NumVal::Flt(t@),
        }
    }
}

/// The character of the decimal digit `n`.
pub(crate) fn digit_of(n: u64) -> (r: char)
    requires
        n < 10,
    ensures
        r == digit_char(n as nat),
{
    if n == 0 {
        '0'
    } else if n == 1 {
        '1'
    } else if n == 2 {
        '2'
    } else if n == 3 {
        '3'
    } else if n == 4 {
        '4'
    } else if n == 5 {
        '5'
    } else if n == 6 {
        '6'
    } else if n == 7 {
        '7'
    } else if n == 8 {
        '8'
    } else {
        '9'
    }
}

/// Appends the decimal text of `n`, most significant digit first.
pub(crate) fn write_u64(n: u64, out: &mut Vec<char>)
    ensures
        final(out)@ == old(out)@ + dec_text(n as nat),
    decreases n,
{
    if n < 10 {
        out.push(digit_of(n));
        proof {
            assert(old(out)@ + dec_text(n as nat) =~= old(out)@.push(digit_char(n as nat)));
        }
    } else {
        write_u64(n / 10, out);
        out.push(digit_of(n % 10));
        proof {
            assert(old(out)@ + dec_text(n as nat) =~= (old(out)@ + dec_text((n / 10) as nat)).push(
                digit_char((n % 10) as nat),
            ));
        }
    }
}

/// Appends the text of a number: integers in decimal, a float token verbatim.
pub(crate) fn write_number(num: &Number, out: &mut Vec<char>)
    ensures
        final(out)@ == old(out)@ + num_text(num@),
{
    match num {
        Number::Unsigned(u) => {
            write_u64(*u, out);
        },
        Number::Integer(i) => {
            if *i < 0 {
                let m: u64 = if *i == i64::MIN {
                    0x8000_0000_0000_0000u64
                } else {
                    (-*i) as u64
                };
                out.push('-');
                write_u64(m, out);
                proof {
                    assert(old(out)@ + num_text(num@) =~= (old(out)@.push('-')) + dec_text(
                        m as nat,
                    ));
                }
            } else {
                write_u64(*i as u64, out);
            }
        },
        Number::Float(t) => {
            let mut cs = crate::host::str_to_chars(t.as_str());
            out.append(&mut cs);
        },
    }
}

impl From<u64> for Number {
    fn from(v: u64) -> (r: Number) {
        Number::Unsigned(v)
    }
}

impl vstd::std_specs::convert::FromSpecImpl<u64> for Number {
    open spec fn obeys_from_spec() -> bool {
        true
    }

    open spec fn from_spec(v: u64) -> Number {
        Number::Unsigned(v)
    }
}

impl From<i64> for Number {
    fn from(v: i64) -> (r: Number) {
        Number::Integer(v)
    }
}

impl vstd::std_specs::convert::FromSpecImpl<i64> for Number {
    open spec fn obeys_from_spec() -> bool {
        true
    }

    open spec fn from_spec(v: i64) -> Number {
        Number::Integer(v)
    }
}

impl Number {
    /// The text of this number, exactly as the serializer writes it.
    pub fn to_string(&self) -> (r: String)
        ensures
            r@ == num_text(self@),
    {
        let mut out: Vec<char> = Vec::new();
        write_number(self, &mut out);
        proof {
            assert(Seq::<char>::empty() + num_text(self@) =~= num_text(self@));
        }
        chars_to_string(&out)
    }
}

} // verus!
