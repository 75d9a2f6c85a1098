//! The string machine: verbatim characters, single-character escapes, and
//! `\u` escapes of exactly four hexadecimal digits.
use vstd::prelude::*;

use crate::error::Error;
use crate::grammar::hex_seq_val;
use crate::grammar::scan_string;
use crate::grammar::str_body;
use crate::grammar::str_escape;
use crate::grammar::str_unicode;
use crate::host::char_string;
use crate::host::chars_to_string;
use crate::json::Json;
use crate::model::ErrorV;
use crate::model::JsonVal;
use crate::parser::hex_digit;
use crate::parser::hex_value;
use crate::parser::Cursor;

verus! {

/// Where the machine stands inside the string body.
enum StrState {
    Unescaped,
    Escaped,
    Unicode,
}

/// Scans one string token at the cursor: an opening quote, a body of verbatim
/// and escaped characters, and a closing quote, giving the unescaped body.
#[verifier::loop_isolation(false)]
pub fn string(cur: &mut Cursor) -> (r: Result<Json, Error>)
    requires
        old(cur).wf(),
    ensures
        final(cur).wf(),
        final(cur).text@ == old(cur).text@,
        match r {
            Ok(j) => j@ matches JsonVal::Str(t) && scan_string(
                old(cur).text@,
                old(cur).pos as nat,
            ) == Ok::<(Seq<char>, nat), (ErrorV, nat)>((t, final(cur).pos as nat)),
            Err(e) => scan_string(old(cur).text@, old(cur).pos as nat) == Err::<(Seq<char>, nat), (ErrorV, nat)>((e@, final(cur).pos as nat)),
        },
{
    let ghost s = cur.text@;
    let ghost p0 = cur.pos as nat;
    match cur.peek() {
        None => {
            return Err(Error::UnexpectedEof);
        },
        Some(c) => {
            if c != '"' {
                return Err(Error::InvalidCharacter(char_string(c)));
            }
            cur.next();
        },
    }
    let mut acc: Vec<char> = Vec::new();
    let mut digs: Vec<char> = Vec::new();
    let mut code: u32 = 0;
    let mut st = StrState::Unescaped;
    loop
        invariant
            cur.wf(),
            cur.text@ == s,
            match st {
                StrState::Unescaped => scan_string(s, p0) == str_body(s, cur.pos as nat, acc@),
                StrState::Escaped => scan_string(s, p0) == str_escape(s, cur.pos as nat, acc@),
                StrState::Unicode => scan_string(s, p0) == str_unicode(
                    s,
                    cur.pos as nat,
                    acc@,
                    digs@,
                ) && code == hex_seq_val(digs@) && digs@.len() <= 3 && (digs@.len() == 0 ==> code
                    == 0) && (digs@.len() == 1 ==> code < 16) && (digs@.len() == 2 ==> code < 256)
                    && (digs@.len() == 3 ==> code < 4096),
            },
        decreases s.len() - cur.pos,
    {
        match cur.peek() {
            None => {
                return Err(Error::UnexpectedEof);
            },
            Some(c) => {
                match st {
                    StrState::Unescaped => {
                        if c == '"' {
                            cur.next();
                            return Ok(Json::String(chars_to_string(&acc)));
                        } else if c == '\\' {
                            cur.next();
                            st = StrState::Escaped;
                        } else {
                            cur.next();
                            acc.push(c);
                        }
                    },
                    StrState::Escaped => {
                        if c == 'u' {
                            cur.next();
                            digs = Vec::new();
                            code = 0;
                            st = StrState::Unicode;
                        } else if c == '"' {
                            cur.next();
                            acc.push('"');
                            st = StrState::Unescaped;
                        } else if c == '\\' {
                            cur.next();
                            acc.push('\\');
                            st = StrState::Unescaped;
                        } else if c == '/' {
                            cur.next();
                            acc.push('/');
                            st = StrState::Unescaped;
                        } else if c == 'b' {
                            cur.next();
                            acc.push('\u{0008}');
                            st = StrState::Unescaped;
                        } else if c == 'f' {
                            cur.next();
                            acc.push('\u{000C}');
                            st = StrState::Unescaped;
                        } else if c == 'n' {
                            cur.next();
                            acc.push('\u{000A}');
                            st = StrState::Unescaped;
                        } else if c == 'r' {
                            cur.next();
                            acc.push('\u{000D}');
                            st = StrState::Unescaped;
                        } else if c == 't' {
                            cur.next();
                            acc.push('\u{0009}');
                            st = StrState::Unescaped;
                        } else {
                            return Err(Error::InvalidCharacter(char_string(c)));
                        }
                    },
                    StrState::Unicode => {
                        if hex_digit(c) {
                            cur.next();
                            let v = hex_value(c);
                            proof {
                                assert(digs@.push(c).drop_last() =~= digs@);
                            }
                            code = code * 16 + v;
                            digs.push(c);
                            proof {
                                assert(code == hex_seq_val(digs@));
                                assert(scan_string(s, p0) == str_unicode(
                                    s,
                                    cur.pos as nat,
                                    acc@,
                                    digs@,
                                ));
                            }
                            if digs.len() == 4 {
                                match char::from_u32(code) {
                                    Some(ch) => {
                                        proof {
                                            vstd::utf8::char_u32_cast(ch, code);
                                            assert(ch == ((hex_seq_val(digs@) as u32) as char));
                                            assert(str_unicode(s, cur.pos as nat, acc@, digs@)
                                                == str_body(s, cur.pos as nat, acc@.push(ch)));
                                        }
                                        acc.push(ch);
                                        st = StrState::Unescaped;
                                        digs = Vec::new();
                                        code = 0;
                                    },
                                    None => {
                                        proof {
                                            assert(str_unicode(s, cur.pos as nat, acc@, digs@)
                                                == Err::<(Seq<char>, nat), (ErrorV, nat)>((
                                                ErrorV::Invalid(seq!['U', '+'] + digs@),
                                                cur.pos as nat,
                                            )));
                                        }
                                        let mut msg = vec!['U', '+'];
                                        msg.append(&mut digs);
                                        return Err(Error::InvalidCharacter(chars_to_string(&msg)));
                                    },
                                }
                            }
                        } else {
                            let mut msg = vec!['U', '+'];
                            msg.append(&mut digs);
                            return Err(Error::InvalidCharacter(chars_to_string(&msg)));
                        }
                    },
                }
            },
        }
    }
}

} // verus!
