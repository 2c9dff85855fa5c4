//! Decimal text: digits, canonical decimal renderings of small numbers, and
//! their parsing.

use vstd::prelude::*;
use vstd::string::*;

verus! {

/// The decimal digit character for `d` in `0..=9`.
pub open spec fn digit_char(d: int) -> char {
    ((d + 48) as u32) as char
}

pub open spec fn is_digit(c: char) -> bool {
    '0' <= c && c <= '9'
}

/// The numeric value of a digit character.
pub open spec fn digit_value(c: char) -> int {
    c as int - 48
}

/// The value of a sequence of digits read in base ten (leading zeros allowed).
pub open spec fn decimal_value(t: Seq<char>) -> int
    decreases t.len(),
{
    if t.len() == 0 {
        0
    } else {
        decimal_value(t.drop_last()) * 10 + digit_value(t.last())
    }
}

pub open spec fn all_digits(t: Seq<char>) -> bool {
    forall|k: int| 0 <= k < t.len() ==> is_digit(#[trigger] t[k])
}

/// The canonical decimal text of `v` in `0..=999`: no leading zeros, and
/// `"0"` for zero.
pub open spec fn dec(v: int) -> Seq<char> {
    if v < 10 {
        seq![digit_char(v)]
    } else if v < 100 {
        seq![digit_char(v / 10), digit_char(v % 10)]
    } else {
        seq![digit_char(v / 100), digit_char((v / 10) % 10), digit_char(v % 10)]
    }
}

pub proof fn lemma_digit_char(d: int)
    requires
        0 <= d <= 9,
    ensures
        is_digit(digit_char(d)),
        digit_value(digit_char(d)) == d,
        digit_char(d) != '.',
        digit_char(d) != '/',
        d == 0 <==> digit_char(d) == '0',
{
}


/// A canonical decimal text of at most three digits.
pub open spec fn canonical(t: Seq<char>) -> bool {
    &&& 1 <= t.len() <= 3
    &&& all_digits(t)
    &&& t.len() > 1 ==> t[0] != '0'
}

pub proof fn lemma_digit_roundtrip(c: char)
    requires
        is_digit(c),
    ensures
        digit_char(digit_value(c)) == c,
        0 <= digit_value(c) <= 9,
{
}

/// The canonical text of a small number is canonical and reads back as it.
pub proof fn lemma_dec(v: int)
    requires
        0 <= v <= 999,
    ensures
        canonical(dec(v)),
        decimal_value(dec(v)) == v,
        dec(v).len() == 1 <==> v < 10,
        dec(v).len() == 3 <==> v >= 100,
{
    reveal_with_fuel(decimal_value, 4);
    lemma_digit_char(v % 10);
    lemma_digit_char((v / 10) % 10);
    if v < 10 {
        lemma_digit_char(v);
        assert(dec(v).drop_last() =~= Seq::<char>::empty());
    } else if v < 100 {
        lemma_digit_char(v / 10);
        assert(dec(v).drop_last() =~= seq![digit_char(v / 10)]);
        assert(dec(v).drop_last().drop_last() =~= Seq::<char>::empty());
    } else {
        lemma_digit_char(v / 100);
        let t = dec(v);
        assert(t.drop_last() =~= seq![digit_char(v / 100), digit_char((v / 10) % 10)]);
        assert(t.drop_last().drop_last() =~= seq![digit_char(v / 100)]);
        assert(t.drop_last().drop_last().drop_last() =~= Seq::<char>::empty());
    }
}

/// A canonical text is the canonical text of its value.
pub proof fn lemma_canonical(t: Seq<char>)
    requires
        canonical(t),
    ensures
        t == dec(decimal_value(t)),
        0 <= decimal_value(t) <= 999,
{
    reveal_with_fuel(decimal_value, 4);
    lemma_digit_roundtrip(t[0]);
    if t.len() == 1 {
        assert(t.drop_last() =~= Seq::<char>::empty());
        assert(t =~= dec(decimal_value(t)));
    } else if t.len() == 2 {
        lemma_digit_roundtrip(t[1]);
        assert(t.drop_last() =~= seq![t[0]]);
        assert(t.drop_last().drop_last() =~= Seq::<char>::empty());
        assert(t =~= dec(decimal_value(t)));
    } else {
        lemma_digit_roundtrip(t[1]);
        lemma_digit_roundtrip(t[2]);
        assert(t.drop_last() =~= seq![t[0], t[1]]);
        assert(t.drop_last().drop_last() =~= seq![t[0]]);
        assert(t.drop_last().drop_last().drop_last() =~= Seq::<char>::empty());
        assert(t =~= dec(decimal_value(t)));
    }
}


/// Appends the digit character of `d` to `s`.
pub fn push_digit(s: &mut String, d: u32)
    requires
        d <= 9,
    ensures
        final(s)@ == old(s)@.push(digit_char(d as int)),
{
    if d == 0 {
        proof {
            reveal_strlit("0");
        }
        s.append("0");
    } else if d == 1 {
        proof {
            reveal_strlit("1");
        }
        s.append("1");
    } else if d == 2 {
        proof {
            reveal_strlit("2");
        }
        s.append("2");
    } else if d == 3 {
        proof {
            reveal_strlit("3");
        }
        s.append("3");
    } else if d == 4 {
        proof {
            reveal_strlit("4");
        }
        s.append("4");
    } else if d == 5 {
        proof {
            reveal_strlit("5");
        }
        s.append("5");
    } else if d == 6 {
        proof {
            reveal_strlit("6");
        }
        s.append("6");
    } else if d == 7 {
        proof {
            reveal_strlit("7");
        }
        s.append("7");
    } else if d == 8 {
        proof {
            reveal_strlit("8");
        }
        s.append("8");
    } else if d == 9 {
        proof {
            reveal_strlit("9");
        }
        s.append("9");
    }
}

/// Appends the canonical decimal text of `v` to `s`.
pub fn push_decimal(s: &mut String, v: u32)
    requires
        v <= 999,
    ensures
        final(s)@ == old(s)@ + dec(v as int),
{
    if v >= 100 {
        push_digit(s, v / 100);
    }
    if v >= 10 {
        push_digit(s, (v / 10) % 10);
    }
    push_digit(s, v % 10);
    proof {
        assert(s@ =~= old(s)@ + dec(v as int));
    }
}


/// The position of the first `'/'` in `t`, or its length where it has none.
pub open spec fn slash_index(t: Seq<char>) -> int
    decreases t.len(),
{
    if t.len() == 0 {
        0
    } else if t[0] == '/' {
        0
    } else {
        1 + slash_index(t.drop_first())
    }
}

pub proof fn lemma_slash_index(t: Seq<char>)
    ensures
        0 <= slash_index(t) <= t.len(),
        slash_index(t) < t.len() ==> t[slash_index(t)] == '/',
        forall|k: int| 0 <= k < slash_index(t) ==> t[k] != '/',
    decreases t.len(),
{
    if t.len() > 0 && t[0] != '/' {
        lemma_slash_index(t.drop_first());
        assert forall|k: int| 0 <= k < slash_index(t) implies t[k] != '/' by {
            if k > 0 {
                assert(t[k] == t.drop_first()[k - 1]);
            }
        }
    }
}

/// `slash_index` is the first slash, wherever it is found.
pub proof fn lemma_slash_index_at(t: Seq<char>, j: int)
    requires
        0 <= j <= t.len(),
        j < t.len() ==> t[j] == '/',
        forall|k: int| 0 <= k < j ==> t[k] != '/',
    ensures
        slash_index(t) == j,
{
    lemma_slash_index(t);
    if slash_index(t) < j {
        assert(t[slash_index(t)] == '/');
    }
    if j < slash_index(t) {
        assert(t[j] != '/');
    }
}

/// Finds the first `'/'` in `s`.
pub fn find_slash(s: &Vec<char>) -> (r: usize)
    ensures
        r == slash_index(s@),
{
    let mut i: usize = 0;
    while i < s.len() && s[i] != '/'
        invariant
            i <= s@.len(),
            forall|k: int| 0 <= k < i ==> s@[k] != '/',
        decreases s@.len() - i,
    {
        i = i + 1;
    }
    proof {
        lemma_slash_index_at(s@, i as int);
    }
    i
}

/// The characters of `s` from `lo` up to `hi`.
pub fn slice(s: &Vec<char>, lo: usize, hi: usize) -> (r: Vec<char>)
    requires
        lo <= hi <= s@.len(),
    ensures
        r@ == s@.subrange(lo as int, hi as int),
{
    let mut r: Vec<char> = Vec::new();
    let mut i = lo;
    while i < hi
        invariant
            lo <= i <= hi <= s@.len(),
            r@ == s@.subrange(lo as int, i as int),
        decreases hi - i,
    {
        r.push(s[i]);
        i = i + 1;
        assert(r@ =~= s@.subrange(lo as int, i as int));
    }
    r
}

/// The prefix length that `u` spells: decimal digits of value at most 32.
pub open spec fn prefix_of(u: Seq<char>) -> Option<u8> {
    if u.len() > 0 && all_digits(u) && decimal_value(u) <= 32 {
        Some(decimal_value(u) as u8)
    } else {
        None
    }
}

/// Reads a prefix length.
pub fn parse_prefix(u: &Vec<char>) -> (r: Option<u8>)
    ensures
        r == prefix_of(u@),
        r is Some ==> r->0 <= 32,
{
    let n = u.len();
    if n == 0 {
        return None;
    }
    let mut v: u32 = 0;
    let mut k: usize = 0;
    while k < n
        invariant
            k <= n == u@.len(),
            all_digits(u@.take(k as int)),
            decimal_value(u@.take(k as int)) >= 0,
            decimal_value(u@.take(k as int)) <= 32 ==> v == decimal_value(u@.take(k as int)),
            decimal_value(u@.take(k as int)) > 32 ==> v == 33,
        decreases n - k,
    {
        let c = u[k];
        if !('0' <= c && c <= '9') {
            proof {
                assert(!all_digits(u@));
            }
            return None;
        }
        let d = (c as u32) - 48;
        if v <= 32 {
            v = v * 10 + d;
            if v > 32 {
                v = 33;
            }
        }
        proof {
            assert(u@.take(k + 1).drop_last() =~= u@.take(k as int));
            assert(u@.take(k + 1).last() == c);
        }
        k = k + 1;
    }
    assert(u@.take(n as int) =~= u@);
    if v > 32 {
        None
    } else {
        Some(v as u8)
    }
}

} // verus!
