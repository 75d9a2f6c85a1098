//! The recursive-descent parser: a character cursor, one module per state
//! machine, and the node dispatcher tying them together.
mod array;
mod boolean;
mod node;
mod null;
mod number;
mod object;
mod string;

pub use self::array::array;
pub use self::boolean::boolean;
pub use self::node::node;
pub use self::null::null;
pub use self::number::number;
pub use self::object::object;
pub use self::string::string;

use vstd::prelude::*;

use crate::error::Error;
use crate::grammar::is_ws;
use crate::grammar::scan_lit;
use crate::grammar::skip_ws;
use crate::host::char_string;
use crate::model::ErrorV;

verus! {

/// A position in a fixed sequence of characters, moving only forward.
pub struct Cursor {
    pub text: Vec<char>,
    pub pos: usize,
}

impl Cursor {
    /// The position never passes the end of the text.
    pub open spec fn wf(&self) -> bool {
        self.pos <= self.text@.len()
    }

    pub fn new(text: Vec<char>) -> (c: Cursor)
        ensures
            c.wf(),
            c.text@ == text@,
            c.pos == 0,
    {
        Cursor { text, pos: 0 }
    }

    /// The next character, if any, without consuming it.
    pub fn peek(&self) -> (r: Option<char>)
        requires
            self.wf(),
        ensures
            self.pos < self.text@.len() ==> r == Some(self.text@[self.pos as int]),
            self.pos == self.text@.len() ==> r is None,
    {
        if self.pos < self.text.len() {
            Some(self.text[self.pos])
        } else {
            None
        }
    }

    /// The next character, if any, consuming it.
    pub fn next(&mut self) -> (r: Option<char>)
        requires
            old(self).wf(),
        ensures
            final(self).wf(),
            final(self).text@ == old(self).text@,
            old(self).pos < old(self).text@.len() ==> r == Some(
                old(self).text@[old(self).pos as int],
            ) && final(self).pos == old(self).pos + 1,
            old(self).pos == old(self).text@.len() ==> r is None && final(self).pos == old(
                self,
            ).pos,
    {
        if self.pos < self.text.len() {
            let c = self.text[self.pos];
            self.pos = self.pos + 1;
            Some(c)
        } else {
            None
        }
    }
}

/// Consumes the run of insignificant whitespace at the cursor.
#[verifier::loop_isolation(false)]
pub(crate) fn skip_whitespace(cur: &mut Cursor)
    requires
        old(cur).wf(),
    ensures
        final(cur).wf(),
        final(cur).text@ == old(cur).text@,
        final(cur).pos == skip_ws(old(cur).text@, old(cur).pos as nat),
        old(cur).pos <= final(cur).pos,
{
    let ghost s = cur.text@;
    let ghost p0 = cur.pos as nat;
    loop
        invariant
            cur.wf(),
            cur.text@ == s,
            p0 <= cur.pos,
            skip_ws(s, p0) == skip_ws(s, cur.pos as nat),
        decreases s.len() - cur.pos,
    {
        match cur.peek() {
            Some(c) => {
                if c == ' ' || c == '\r' || c == '\n' || c == '\t' {
                    cur.next();
                } else {
                    return ;
                }
            },
            None => {
                return ;
            },
        }
    }
}

/// Whether `c` is a decimal digit.
pub(crate) fn digit(c: char) -> (r: bool)
    ensures
        r == crate::grammar::is_digit(c),
{
    let u = c as u32;
    48 <= u && u <= 57
}

/// Whether `c` is a hexadecimal digit.
pub(crate) fn hex_digit(c: char) -> (r: bool)
    ensures
        r == crate::grammar::is_hex_digit(c),
{
    let u = c as u32;
    (48 <= u && u <= 57) || (97 <= u && u <= 102) || (65 <= u && u <= 70)
}

/// The value of a hexadecimal digit.
pub(crate) fn hex_value(c: char) -> (r: u32)
    requires
        crate::grammar::is_hex_digit(c),
    ensures
        r == crate::grammar::hex_val(c),
{
    let u = c as u32;
    if u <= 57 {
        u - 48
    } else if 97 <= u {
        u - 87
    } else {
        u - 55
    }
}

/// The characters of `text` in `[a, b)`, as a fresh vector.
#[verifier::loop_isolation(false)]
pub(crate) fn copy_range(text: &Vec<char>, a: usize, b: usize) -> (r: Vec<char>)
    requires
        a <= b,
        b <= text@.len(),
    ensures
        r@ == text@.subrange(a as int, b as int),
{
    let mut r: Vec<char> = Vec::new();
    proof {
        assert(r@ =~= text@.subrange(a as int, a as int));
    }
    let mut k = a;
    while k < b
        invariant
            a <= k <= b,
            r@ == text@.subrange(a as int, k as int),
        decreases b - k,
    {
        r.push(text[k]);
        proof {
            assert(text@.subrange(a as int, k as int + 1) =~= text@.subrange(
                a as int,
                k as int,
            ).push(text@[k as int]));
        }
        k = k + 1;
    }
    r
}

/// Matches a fixed keyword character by character, consuming what matches.
#[verifier::loop_isolation(false)]
pub(crate) fn match_keyword(cur: &mut Cursor, kw: &Vec<char>) -> (r: Result<(), Error>)
    requires
        old(cur).wf(),
    ensures
        final(cur).wf(),
        final(cur).text@ == old(cur).text@,
        match r {
            Ok(()) => scan_lit(old(cur).text@, old(cur).pos as nat, kw@) == Ok::<nat, (ErrorV, nat)>(
                final(cur).pos as nat,
            ),
            Err(e) => scan_lit(old(cur).text@, old(cur).pos as nat, kw@) == Err::<nat, (ErrorV, nat)>((e@, final(cur).pos as nat)),
        },
{
    let ghost s = cur.text@;
    let ghost p0 = cur.pos as nat;
    proof {
        assert(kw@.skip(0) =~= kw@);
    }
    let mut k: usize = 0;
    while k < kw.len()
        invariant
            cur.wf(),
            cur.text@ == s,
            k <= kw@.len(),
            scan_lit(s, p0, kw@) == scan_lit(s, cur.pos as nat, kw@.skip(k as int)),
        decreases kw@.len() - k,
    {
        proof {
            assert(kw@.skip(k as int)[0] == kw@[k as int]);
        }
        match cur.peek() {
            None => {
                return Err(Error::UnexpectedEof);
            },
            Some(c) => {
                if c == kw[k] {
                    cur.next();
                    proof {
                        assert(kw@.skip(k as int).skip(1) =~= kw@.skip(k as int + 1));
                    }
                    k = k + 1;
                } else {
                    return Err(Error::InvalidCharacter(char_string(c)));
                }
            },
        }
    }
    proof {
        assert(kw@.skip(k as int).len() == 0);
    }
    Ok(())
}

} // verus!
