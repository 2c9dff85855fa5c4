//! Expansion of terse address specifiers into full `address/prefix` text.
//!
//! Three token forms are read, left to right, carrying the most recently
//! seen address:
//! - `address/prefix`: the address becomes the last seen one; the token is
//!   kept as it is;
//! - `/prefix`: the last seen address is put in front of the slash;
//! - `/address/prefix`: the address becomes the last seen one; the token is
//!   kept without its leading slash.

use vstd::prelude::*;
use vstd::string::*;
use crate::address::{address_of, chars_of, dotted, parse_chars, push_address};
use crate::network::{ErrorKind, ParseError};
use crate::text::{find_slash, lemma_slash_index, slash_index, slice};

verus! {

/// The address seeded before any token is read: 192.168.1.1.
pub const DEFAULT_ADDRESS: u32 = 0xc0a8_0101;

/// One token read with last seen address `last`: the new last seen address
/// and the resolved specifier, or none where the token's address does not
/// parse.
pub open spec fn step(last: u32, t: Seq<char>) -> Option<(u32, Seq<char>)> {
    if t.len() > 0 && t[0] == '/' {
        let rest = t.skip(1);
        let k = slash_index(rest);
        if k < rest.len() {
            match address_of(rest.take(k)) {
                Some(a) => Some((a, rest)),
                None => None,
            }
        } else {
            Some((last, dotted(last) + seq!['/'] + rest))
        }
    } else {
        match address_of(t.take(slash_index(t))) {
            Some(a) => Some((a, t)),
            None => None,
        }
    }
}

/// The resolved specifiers of `ts` read from last seen address `last`, or
/// the first token that does not parse.
pub open spec fn expand_from(last: u32, ts: Seq<Seq<char>>) -> Result<Seq<Seq<char>>, Seq<char>>
    decreases ts.len(),
{
    if ts.len() == 0 {
        Ok(Seq::empty())
    } else {
        match step(last, ts[0]) {
            None => Err(ts[0]),
            Some((next, r)) => match expand_from(next, ts.drop_first()) {
                Ok(rs) => Ok(seq![r] + rs),
                Err(e) => Err(e),
            },
        }
    }
}

/// The expansion of a whole token list, from the default address.
pub open spec fn expansion(ts: Seq<Seq<char>>) -> Result<Seq<Seq<char>>, Seq<char>> {
    expand_from(DEFAULT_ADDRESS, ts)
}

pub open spec fn views(v: Seq<String>) -> Seq<Seq<char>> {
    v.map_values(|s: String| s@)
}

/// Resolves every token of `raw_args`, or fails on the first one whose
/// address does not parse.
pub fn expand_args(raw_args: &[String]) -> (r: Result<Vec<String>, ParseError>)
    ensures
        match r {
            Ok(out) => expansion(views(raw_args@)) == Ok::<Seq<Seq<char>>, Seq<char>>(
                views(out@),
            ),
            Err(e) => {
                &&& expansion(views(raw_args@)) == Err::<Seq<Seq<char>>, Seq<char>>(e.input@)
                &&& e.kind == ErrorKind::TokenParse
            },
        },
{
    let ghost ts = views(raw_args@);
    let mut last: u32 = DEFAULT_ADDRESS;
    let mut out: Vec<String> = Vec::new();
    let mut i: usize = 0;
    proof {
        assert(ts.skip(0) =~= ts);
        assert forall|rs: Seq<Seq<char>>| views(out@) + rs == rs by {
            assert(views(out@) + rs =~= rs);
        }
    }
    while i < raw_args.len()
        invariant
            i <= raw_args@.len(),
            ts == views(raw_args@),
            expansion(ts) == match expand_from(last, ts.skip(i as int)) {
                Ok(rs) => Ok(views(out@) + rs),
                Err(e) => Err::<Seq<Seq<char>>, Seq<char>>(e),
            },
        decreases raw_args@.len() - i,
    {
        let raw = &raw_args[i];
        let cs = chars_of(raw.as_str());
        let n = cs.len();
        proof {
            assert(ts.skip(i as int)[0] == raw@);
            assert(ts.skip(i as int).drop_first() =~= ts.skip(i + 1));
        }
        let ghost prev = last;
        let resolved: String;
        if n > 0 && cs[0] == '/' {
            let rest = slice(&cs, 1, n);
            assert(rest@ =~= raw@.skip(1));
            let k = find_slash(&rest);
            proof {
                lemma_slash_index(rest@);
            }
            let sub = raw.as_str().substring_char(1, n);
            if k < rest.len() {
                let head = slice(&rest, 0, k);
                assert(head@ =~= rest@.take(k as int));
                match parse_chars(&head) {
                    Some(a) => {
                        last = a;
                    },
                    None => {
                        return Err(ParseError { kind: ErrorKind::TokenParse, input: raw.clone() });
                    },
                }
                resolved = String::from_str(sub);
            } else {
                let mut s = String::new();
                push_address(&mut s, last);
                proof {
                    reveal_strlit("/");
                }
                s.append("/");
                s.append(sub);
                resolved = s;
            }
        } else {
            let k = find_slash(&cs);
            proof {
                lemma_slash_index(cs@);
            }
            let head = slice(&cs, 0, k);
            assert(head@ =~= raw@.take(k as int));
            match parse_chars(&head) {
                Some(a) => {
                    last = a;
                },
                None => {
                    return Err(ParseError { kind: ErrorKind::TokenParse, input: raw.clone() });
                },
            }
            resolved = raw.clone();
        }
        let ghost before = out@;
        out.push(resolved);
        proof {
            assert(views(out@) =~= views(before) + seq![resolved@]);
            assert(step(prev, raw@) == Some((last, resolved@)));
            assert forall|rs: Seq<Seq<char>>| views(out@) + rs == views(before) + (seq![resolved@] + rs) by {
                assert(views(out@) + rs =~= views(before) + (seq![resolved@] + rs));
            }
        }
        i = i + 1;
    }
    proof {
        assert(ts.skip(i as int) =~= Seq::<Seq<char>>::empty());
        assert(views(out@) + Seq::<Seq<char>>::empty() =~= views(out@));
    }
    Ok(out)
}

} // verus!
