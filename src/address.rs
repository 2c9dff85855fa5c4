//! IPv4 addresses as 32-bit integers, and their dotted-quad text.

use vstd::prelude::*;
use vstd::string::*;
use crate::text::{push_decimal, canonical, dec, decimal_value, digit_value, is_digit, lemma_canonical, lemma_dec, lemma_digit_char};

verus! {

/// Octet `k` of `a`, counting from the most significant.
pub open spec fn octet(a: u32, k: int) -> int {
    if k == 0 {
        ((a >> 24u32) & 0xffu32) as int
    } else if k == 1 {
        ((a >> 16u32) & 0xffu32) as int
    } else if k == 2 {
        ((a >> 8u32) & 0xffu32) as int
    } else {
        (a & 0xffu32) as int
    }
}

/// The dotted-quad text of `a`: four canonical decimal octets joined by dots.
pub open spec fn dotted(a: u32) -> Seq<char> {
    dec(octet(a, 0)) + seq!['.'] + dec(octet(a, 1)) + seq!['.'] + dec(octet(a, 2)) + seq!['.']
        + dec(octet(a, 3))
}

/// The address that `t` spells in dotted-quad form, if any.
pub open spec fn address_of(t: Seq<char>) -> Option<u32> {
    if exists|a: u32| dotted(a) == t {
        Some(choose|a: u32| dotted(a) == t)
    } else {
        None
    }
}

/// At position `i` of `s` stands the canonical text of octet `v`, followed by
/// the end of `s` or a character that is not a digit.
pub open spec fn octet_at(s: Seq<char>, i: int, v: int) -> bool {
    &&& 0 <= i
    &&& 0 <= v <= 255
    &&& i + dec(v).len() <= s.len()
    &&& s.subrange(i, i + dec(v).len()) == dec(v)
    &&& (i + dec(v).len() == s.len() || !is_digit(s[i + dec(v).len()]))
}

pub proof fn lemma_octet_bounds(a: u32)
    ensures
        0 <= octet(a, 0) <= 255,
        0 <= octet(a, 1) <= 255,
        0 <= octet(a, 2) <= 255,
        0 <= octet(a, 3) <= 255,
{
    assert((a >> 24u32) & 0xffu32 <= 255) by (bit_vector);
    assert((a >> 16u32) & 0xffu32 <= 255) by (bit_vector);
    assert((a >> 8u32) & 0xffu32 <= 255) by (bit_vector);
    assert(a & 0xffu32 <= 255) by (bit_vector);
}

/// Four octets put together, and taken apart again.
pub proof fn lemma_octets(v0: u32, v1: u32, v2: u32, v3: u32)
    requires
        v0 <= 255,
        v1 <= 255,
        v2 <= 255,
        v3 <= 255,
    ensures
        octet((v0 << 24u32) | (v1 << 16u32) | (v2 << 8u32) | v3, 0) == v0,
        octet((v0 << 24u32) | (v1 << 16u32) | (v2 << 8u32) | v3, 1) == v1,
        octet((v0 << 24u32) | (v1 << 16u32) | (v2 << 8u32) | v3, 2) == v2,
        octet((v0 << 24u32) | (v1 << 16u32) | (v2 << 8u32) | v3, 3) == v3,
{
    assert(v0 <= 255 && v1 <= 255 && v2 <= 255 && v3 <= 255 ==> ((((v0 << 24u32) | (v1
        << 16u32) | (v2 << 8u32) | v3) >> 24u32) & 0xffu32) == v0) by (bit_vector);
    assert(v0 <= 255 && v1 <= 255 && v2 <= 255 && v3 <= 255 ==> ((((v0 << 24u32) | (v1
        << 16u32) | (v2 << 8u32) | v3) >> 16u32) & 0xffu32) == v1) by (bit_vector);
    assert(v0 <= 255 && v1 <= 255 && v2 <= 255 && v3 <= 255 ==> ((((v0 << 24u32) | (v1
        << 16u32) | (v2 << 8u32) | v3) >> 8u32) & 0xffu32) == v2) by (bit_vector);
    assert(v0 <= 255 && v1 <= 255 && v2 <= 255 && v3 <= 255 ==> (((v0 << 24u32) | (v1
        << 16u32) | (v2 << 8u32) | v3) & 0xffu32) == v3) by (bit_vector);
}

/// An address is determined by its four octets.
pub proof fn lemma_octets_determine(a: u32, b: u32)
    requires
        octet(a, 0) == octet(b, 0),
        octet(a, 1) == octet(b, 1),
        octet(a, 2) == octet(b, 2),
        octet(a, 3) == octet(b, 3),
    ensures
        a == b,
{
    assert(((a >> 24u32) & 0xffu32) == ((b >> 24u32) & 0xffu32) && ((a >> 16u32) & 0xffu32) == ((
    b >> 16u32) & 0xffu32) && ((a >> 8u32) & 0xffu32) == ((b >> 8u32) & 0xffu32) && (a & 0xffu32)
        == (b & 0xffu32) ==> a == b) by (bit_vector);
}

/// Two octets that stand at one position are the same octet.
pub proof fn lemma_octet_unique(s: Seq<char>, i: int, v: int, w: int)
    requires
        octet_at(s, i, v),
        octet_at(s, i, w),
    ensures
        v == w,
{
    lemma_dec(v);
    lemma_dec(w);
    let lv = dec(v).len() as int;
    let lw = dec(w).len() as int;
    if lv < lw {
        assert(s[i + lv] == s.subrange(i, i + lw)[lv]);
        assert(is_digit(dec(w)[lv]));
    } else if lw < lv {
        assert(s[i + lw] == s.subrange(i, i + lv)[lw]);
        assert(is_digit(dec(v)[lw]));
    }
}

/// Where the octets and dots of a dotted quad stand.
pub proof fn lemma_dotted_parts(a: u32)
    ensures
        ({
            let s = dotted(a);
            let p1 = dec(octet(a, 0)).len() + 1int;
            let p2 = p1 + dec(octet(a, 1)).len() + 1int;
            let p3 = p2 + dec(octet(a, 2)).len() + 1int;
            &&& octet_at(s, 0, octet(a, 0))
            &&& s[p1 - 1] == '.'
            &&& octet_at(s, p1, octet(a, 1))
            &&& s[p2 - 1] == '.'
            &&& octet_at(s, p2, octet(a, 2))
            &&& s[p3 - 1] == '.'
            &&& octet_at(s, p3, octet(a, 3))
            &&& p3 + dec(octet(a, 3)).len() == s.len()
        }),
{
    lemma_octet_bounds(a);
    let s = dotted(a);
    let d0 = dec(octet(a, 0));
    let d1 = dec(octet(a, 1));
    let d2 = dec(octet(a, 2));
    let d3 = dec(octet(a, 3));
    let p1 = d0.len() + 1int;
    let p2 = p1 + d1.len() + 1int;
    let p3 = p2 + d2.len() + 1int;
    assert(s.subrange(0, d0.len() as int) =~= d0);
    assert(s.subrange(p1, p1 + d1.len()) =~= d1);
    assert(s.subrange(p2, p2 + d2.len()) =~= d2);
    assert(s.subrange(p3, p3 + d3.len()) =~= d3);
    assert(s[p1 - 1] == '.');
    assert(s[p2 - 1] == '.');
    assert(s[p3 - 1] == '.');
}

/// Different addresses have different dotted-quad texts.
pub proof fn lemma_dotted_injective(a: u32, b: u32)
    requires
        dotted(a) == dotted(b),
    ensures
        a == b,
{
    lemma_dotted_parts(a);
    lemma_dotted_parts(b);
    let s = dotted(a);
    lemma_octet_unique(s, 0, octet(a, 0), octet(b, 0));
    let p1 = dec(octet(a, 0)).len() + 1int;
    lemma_octet_unique(s, p1, octet(a, 1), octet(b, 1));
    let p2 = p1 + dec(octet(a, 1)).len() + 1int;
    lemma_octet_unique(s, p2, octet(a, 2), octet(b, 2));
    let p3 = p2 + dec(octet(a, 2)).len() + 1int;
    lemma_octet_unique(s, p3, octet(a, 3), octet(b, 3));
    lemma_octets_determine(a, b);
}

/// No character of a dotted quad is a slash.
pub proof fn lemma_dotted_no_slash(a: u32)
    ensures
        forall|k: int| 0 <= k < dotted(a).len() ==> dotted(a)[k] != '/',
{
    lemma_octet_bounds(a);
    lemma_dec(octet(a, 0));
    lemma_dec(octet(a, 1));
    lemma_dec(octet(a, 2));
    lemma_dec(octet(a, 3));
    let d0 = dec(octet(a, 0));
    let d1 = dec(octet(a, 1));
    let d2 = dec(octet(a, 2));
    let d3 = dec(octet(a, 3));
    assert forall|k: int| 0 <= k < dotted(a).len() implies dotted(a)[k] != '/' by {
        let s = dotted(a);
        let p1 = d0.len() + 1int;
        let p2 = p1 + d1.len() + 1int;
        let p3 = p2 + d2.len() + 1int;
        if k < d0.len() {
            assert(s[k] == d0[k]);
            assert(is_digit(d0[k]));
        } else if k == d0.len() {
        } else if k < p1 + d1.len() {
            assert(s[k] == d1[k - p1]);
            assert(is_digit(d1[k - p1]));
        } else if k == p1 + d1.len() {
        } else if k < p2 + d2.len() {
            assert(s[k] == d2[k - p2]);
            assert(is_digit(d2[k - p2]));
        } else if k == p2 + d2.len() {
        } else {
            assert(s[k] == d3[k - p3]);
            assert(is_digit(d3[k - p3]));
        }
    }
}

/// `address_of` reads back every dotted quad.
pub proof fn lemma_address_of_dotted(a: u32)
    ensures
        address_of(dotted(a)) == Some(a),
{
    let b = choose|b: u32| dotted(b) == dotted(a);
    lemma_dotted_injective(a, b);
}


/// The characters of `s`, one by one.
pub fn chars_of(s: &str) -> (r: Vec<char>)
    ensures
        r@ == s@,
{
    let n = s.unicode_len();
    let mut r: Vec<char> = Vec::new();
    let mut i: usize = 0;
    while i < n
        invariant
            i <= n,
            n == s@.len(),
            r@ == s@.subrange(0, i as int),
        decreases n - i,
    {
        r.push(s.get_char(i));
        i = i + 1;
        assert(r@ =~= s@.subrange(0, i as int));
    }
    assert(r@ =~= s@);
    r
}

fn is_digit_char(c: char) -> (r: bool)
    ensures
        r == is_digit(c),
{
    '0' <= c && c <= '9'
}

fn digit_of(c: char) -> (r: u32)
    requires
        is_digit(c),
    ensures
        r == digit_value(c),
        r <= 9,
{
    (c as u32) - 48
}

/// A run of digits from `i` to `j`, where reading stopped, ends where an
/// octet standing at `i` ends.
proof fn lemma_run_end(s: Seq<char>, i: int, j: int, v: int)
    requires
        octet_at(s, i, v),
        i <= j <= s.len(),
        forall|k: int| i <= k < j ==> is_digit(#[trigger] s[k]),
        j == s.len() || j - i >= 4 || !is_digit(s[j]),
    ensures
        j == i + dec(v).len(),
{
    lemma_dec(v);
    let l = dec(v).len() as int;
    if j > i + l {
        assert(is_digit(s[i + l]));
    } else if j < i + l {
        assert(s[j] == s.subrange(i, i + l)[j - i]);
        assert(is_digit(dec(v)[j - i]));
    }
}

/// Reads the octet that stands at position `i` of `s`, and where it ends.
fn read_octet(s: &Vec<char>, i: usize) -> (r: Option<(u32, usize)>)
    requires
        i <= s@.len(),
    ensures
        match r {
            Some((v, j)) => octet_at(s@, i as int, v as int) && j == i + dec(v as int).len(),
            None => forall|v: int| !octet_at(s@, i as int, v),
        },
{
    let n = s.len();
    let mut j = i;
    while j < n && j - i < 4 && is_digit_char(s[j])
        invariant
            i <= j <= n,
            n == s@.len(),
            j - i <= 4,
            forall|k: int| i <= k < j ==> is_digit(#[trigger] s@[k]),
        decreases n - j,
    {
        j = j + 1;
    }
    let len = j - i;
    if len == 0 || len > 3 {
        proof {
            assert forall|v: int| !octet_at(s@, i as int, v) by {
                if octet_at(s@, i as int, v) {
                    lemma_run_end(s@, i as int, j as int, v);
                    lemma_dec(v);
                }
            }
        }
        return None;
    }
    let part = Ghost(s@.subrange(i as int, j as int));
    if len > 1 && s[i] == '0' {
        proof {
            assert forall|v: int| !octet_at(s@, i as int, v) by {
                if octet_at(s@, i as int, v) {
                    lemma_run_end(s@, i as int, j as int, v);
                    lemma_dec(v);
                    assert(dec(v)[0] == s@[i as int]);
                }
            }
        }
        return None;
    }
    proof {
        reveal_with_fuel(decimal_value, 4);
        assert(part@.drop_last() =~= s@.subrange(i as int, j - 1));
        if len >= 2 {
            assert(part@.drop_last().drop_last() =~= s@.subrange(i as int, j - 2));
        }
        if len >= 3 {
            assert(part@.drop_last().drop_last().drop_last() =~= s@.subrange(i as int, j - 3));
        }
    }
    let v: u32 = if len == 1 {
        digit_of(s[i])
    } else if len == 2 {
        digit_of(s[i]) * 10 + digit_of(s[i + 1])
    } else {
        digit_of(s[i]) * 100 + digit_of(s[i + 1]) * 10 + digit_of(s[i + 2])
    };
    proof {
        assert(canonical(part@));
        assert(v == decimal_value(part@));
        lemma_canonical(part@);
    }
    if v > 255 {
        proof {
            assert forall|w: int| !octet_at(s@, i as int, w) by {
                if octet_at(s@, i as int, w) {
                    lemma_run_end(s@, i as int, j as int, w);
                    lemma_dec(w);
                }
            }
        }
        return None;
    }
    Some((v, j))
}


/// Reads a whole dotted quad.
pub fn parse_chars(s: &Vec<char>) -> (r: Option<u32>)
    ensures
        r == address_of(s@),
{
    let n = s.len();
    let r0 = read_octet(s, 0);
    let (v0, j0) = match r0 {
        Some(x) => x,
        None => {
            proof {
                assert forall|a: u32| dotted(a) != s@ by {
                    if dotted(a) == s@ {
                        lemma_dotted_parts(a);
                    }
                }
            }
            return None;
        },
    };
    if j0 >= n || s[j0] != '.' {
        proof {
            assert forall|a: u32| dotted(a) != s@ by {
                if dotted(a) == s@ {
                    lemma_dotted_parts(a);
                    lemma_octet_unique(s@, 0, v0 as int, octet(a, 0));
                }
            }
        }
        return None;
    }
    let r1 = read_octet(s, j0 + 1);
    let (v1, j1) = match r1 {
        Some(x) => x,
        None => {
            proof {
                assert forall|a: u32| dotted(a) != s@ by {
                    if dotted(a) == s@ {
                        lemma_dotted_parts(a);
                        lemma_octet_unique(s@, 0, v0 as int, octet(a, 0));
                    }
                }
            }
            return None;
        },
    };
    if j1 >= n || s[j1] != '.' {
        proof {
            assert forall|a: u32| dotted(a) != s@ by {
                if dotted(a) == s@ {
                    lemma_dotted_parts(a);
                    lemma_octet_unique(s@, 0, v0 as int, octet(a, 0));
                    lemma_octet_unique(s@, j0 + 1, v1 as int, octet(a, 1));
                }
            }
        }
        return None;
    }
    let r2 = read_octet(s, j1 + 1);
    let (v2, j2) = match r2 {
        Some(x) => x,
        None => {
            proof {
                assert forall|a: u32| dotted(a) != s@ by {
                    if dotted(a) == s@ {
                        lemma_dotted_parts(a);
                        lemma_octet_unique(s@, 0, v0 as int, octet(a, 0));
                        lemma_octet_unique(s@, j0 + 1, v1 as int, octet(a, 1));
                    }
                }
            }
            return None;
        },
    };
    if j2 >= n || s[j2] != '.' {
        proof {
            assert forall|a: u32| dotted(a) != s@ by {
                if dotted(a) == s@ {
                    lemma_dotted_parts(a);
                    lemma_octet_unique(s@, 0, v0 as int, octet(a, 0));
                    lemma_octet_unique(s@, j0 + 1, v1 as int, octet(a, 1));
                    lemma_octet_unique(s@, j1 + 1, v2 as int, octet(a, 2));
                }
            }
        }
        return None;
    }
    let r3 = read_octet(s, j2 + 1);
    let (v3, j3) = match r3 {
        Some(x) => x,
        None => {
            proof {
                assert forall|a: u32| dotted(a) != s@ by {
                    if dotted(a) == s@ {
                        lemma_dotted_parts(a);
                        lemma_octet_unique(s@, 0, v0 as int, octet(a, 0));
                        lemma_octet_unique(s@, j0 + 1, v1 as int, octet(a, 1));
                        lemma_octet_unique(s@, j1 + 1, v2 as int, octet(a, 2));
                    }
                }
            }
            return None;
        },
    };
    if j3 != n {
        proof {
            assert forall|a: u32| dotted(a) != s@ by {
                if dotted(a) == s@ {
                    lemma_dotted_parts(a);
                    lemma_octet_unique(s@, 0, v0 as int, octet(a, 0));
                    lemma_octet_unique(s@, j0 + 1, v1 as int, octet(a, 1));
                    lemma_octet_unique(s@, j1 + 1, v2 as int, octet(a, 2));
                    lemma_octet_unique(s@, j2 + 1, v3 as int, octet(a, 3));
                }
            }
        }
        return None;
    }
    let a = (v0 << 24u32) | (v1 << 16u32) | (v2 << 8u32) | v3;
    proof {
        lemma_octets(v0, v1, v2, v3);
        assert(s@ =~= dotted(a)) by {
            assert(s@ =~= s@.subrange(0, j0 as int) + seq!['.'] + s@.subrange(j0 + 1, j1 as int)
                + seq!['.'] + s@.subrange(j1 + 1, j2 as int) + seq!['.'] + s@.subrange(
                j2 + 1,
                j3 as int,
            ));
        }
        lemma_address_of_dotted(a);
    }
    Some(a)
}

/// Parses the dotted-quad text of an IPv4 address.
pub fn parse_address(s: &str) -> (r: Option<u32>)
    ensures
        r == address_of(s@),
{
    let cs = chars_of(s);
    parse_chars(&cs)
}

/// Appends the dotted-quad text of `a` to `s`.
pub fn push_address(s: &mut String, a: u32)
    ensures
        final(s)@ == old(s)@ + dotted(a),
{
    proof {
        lemma_octet_bounds(a);
    }
    push_decimal(s, (a >> 24u32) & 0xffu32);
    proof {
        reveal_strlit(".");
    }
    s.append(".");
    push_decimal(s, (a >> 16u32) & 0xffu32);
    s.append(".");
    push_decimal(s, (a >> 8u32) & 0xffu32);
    s.append(".");
    push_decimal(s, a & 0xffu32);
    assert(s@ =~= old(s)@ + dotted(a));
}

/// The dotted-quad text of `a`.
pub fn address_text(a: u32) -> (r: String)
    ensures
        r@ == dotted(a),
{
    let mut s = String::new();
    push_address(&mut s, a);
    assert(s@ =~= dotted(a));
    s
}

} // verus!
