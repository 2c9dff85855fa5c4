//! IPv4 networks: an address with a prefix length, the quantities derived
//! from them, and the parsing of network specifiers.

use vstd::prelude::*;
use vstd::arithmetic::power2::{lemma2_to64, lemma_pow2_strictly_increases, pow2};
use vstd::bits::{lemma_u64_pow2_no_overflow, lemma_u64_shl_is_mul};
use vstd::std_specs::bits::{axiom_u32_trailing_zeros, u32_trailing_zeros};
use vstd::string::*;
use crate::address::{address_of, chars_of, dotted, lemma_address_of_dotted, lemma_dotted_no_slash, parse_chars};
use crate::text::{dec, find_slash, lemma_dec, lemma_slash_index, lemma_slash_index_at, parse_prefix, prefix_of, slash_index, slice};

verus! {

/// An IPv4 address together with a prefix length.
#[derive(Clone, Copy, Debug, PartialEq, Eq, Structural)]
pub struct Network {
    pub addr: u32,
    pub prefix: u8,
}

/// `p` leading one-bits followed by `32 - p` zero-bits.
pub open spec fn mask_bits(p: u8) -> u32 {
    if p == 0 {
        0
    } else {
        0xffff_ffffu32 << ((32 - p) as u32)
    }
}

/// The number of addresses in a network with prefix length `p`.
pub open spec fn address_count(p: u8) -> nat {
    pow2((32 - p) as nat)
}

/// The number of host addresses: all but the network and broadcast
/// addresses, and none where the network has at most two addresses.
pub open spec fn usable_count(p: u8) -> nat {
    if address_count(p) > 2 {
        (address_count(p) - 2) as nat
    } else {
        0
    }
}

/// What went wrong while reading a specifier.
#[derive(Clone, Copy, Debug, PartialEq, Eq, Structural)]
pub enum ErrorKind {
    /// The address or prefix length of a specifier token does not parse.
    TokenParse,
    /// An explicit netmask does not parse as a dotted quad.
    MaskParse,
}

/// A parse failure, with the input that caused it.
#[derive(Debug)]
pub struct ParseError {
    pub kind: ErrorKind,
    pub input: String,
}

impl ParseError {
    pub fn kind(&self) -> (r: ErrorKind)
        ensures
            r == self.kind,
    {
        self.kind
    }
}

pub open spec fn opt_view(m: Option<&str>) -> Option<Seq<char>> {
    match m {
        Some(t) => Some(t@),
        None => None,
    }
}

/// The prefix length that a netmask gives: 32 less its trailing zero bits.
pub open spec fn mask_prefix(mask: u32) -> u8 {
    (32 - u32_trailing_zeros(mask)) as u8
}

/// The network that specifier `t` denotes, with an optional explicit mask
/// text `m`.  The address is what stands before the first `/`.  Without a
/// mask, what follows the slash is the prefix length, and a specifier with
/// no slash is a single address.  With a mask, what follows the slash is
/// ignored and the prefix length comes from the mask.
pub open spec fn network_of(t: Seq<char>, m: Option<Seq<char>>) -> Result<Network, ErrorKind> {
    let k = slash_index(t);
    match address_of(t.take(k)) {
        None => Err(ErrorKind::TokenParse),
        Some(a) => match m {
            None => if k == t.len() {
                Ok(Network { addr: a, prefix: 32 })
            } else {
                match prefix_of(t.skip(k + 1)) {
                    Some(p) => Ok(Network { addr: a, prefix: p }),
                    None => Err(ErrorKind::TokenParse),
                }
            },
            Some(mt) => match address_of(mt) {
                None => Err(ErrorKind::MaskParse),
                Some(mk) => Ok(Network { addr: a, prefix: mask_prefix(mk) }),
            },
        },
    }
}

/// Derives the prefix length from a netmask.  The mask is not checked to be
/// contiguous: only its lowest set bit counts.
pub fn prefix_from_mask(mask: u32) -> (r: u8)
    ensures
        r == mask_prefix(mask),
        r <= 32,
{
    proof {
        axiom_u32_trailing_zeros(mask);
    }
    (32 - mask.trailing_zeros()) as u8
}

/// Reads a network specifier, with an optional explicit netmask.
pub fn parse_network(spec: &str, mask: Option<&str>) -> (r: Result<Network, ParseError>)
    ensures
        match r {
            Ok(n) => network_of(spec@, opt_view(mask)) == Ok::<Network, ErrorKind>(n) && n.wf(),
            Err(e) => {
                &&& network_of(spec@, opt_view(mask)) == Err::<Network, ErrorKind>(e.kind)
                &&& e.kind == ErrorKind::TokenParse ==> e.input@ == spec@
                &&& e.kind == ErrorKind::MaskParse ==> e.input@ == opt_view(mask)->0
            },
        },
{
    let cs = chars_of(spec);
    let k = find_slash(&cs);
    proof {
        lemma_slash_index(cs@);
    }
    let head = slice(&cs, 0, k);
    assert(head@ =~= spec@.take(k as int));
    let addr = match parse_chars(&head) {
        Some(a) => a,
        None => {
            return Err(ParseError { kind: ErrorKind::TokenParse, input: String::from_str(spec) });
        },
    };
    match mask {
        None => {
            if k == cs.len() {
                return Ok(Network { addr, prefix: 32 });
            }
            let tail = slice(&cs, k + 1, cs.len());
            assert(tail@ =~= spec@.skip(k + 1));
            match parse_prefix(&tail) {
                Some(p) => Ok(Network { addr, prefix: p }),
                None => Err(ParseError { kind: ErrorKind::TokenParse, input: String::from_str(spec) }),
            }
        },
        Some(m) => {
            let mcs = chars_of(m);
            match parse_chars(&mcs) {
                Some(mk) => Ok(Network { addr, prefix: prefix_from_mask(mk) }),
                None => Err(ParseError { kind: ErrorKind::MaskParse, input: String::from_str(m) }),
            }
        },
    }
}

/// A network has usable hosts exactly when its prefix length is at most 30.
pub proof fn lemma_usable_prefix(p: u8)
    requires
        p <= 32,
    ensures
        usable_count(p) > 0 <==> p <= 30,
{
    lemma2_to64();
    if p < 30 {
        lemma_pow2_strictly_increases(2, (32 - p) as nat);
    }
}

impl Network {
    pub open spec fn wf(self) -> bool {
        self.prefix <= 32
    }

    pub open spec fn mask_spec(self) -> u32 {
        mask_bits(self.prefix)
    }

    pub open spec fn network_spec(self) -> u32 {
        self.addr & mask_bits(self.prefix)
    }

    pub open spec fn broadcast_spec(self) -> u32 {
        self.addr | !mask_bits(self.prefix)
    }

    /// The network of `addr` with prefix length `prefix`; none where the
    /// prefix length exceeds 32.
    pub fn new(addr: u32, prefix: u8) -> (r: Option<Network>)
        ensures
            r is Some <==> prefix <= 32,
            r is Some ==> r->0 == (Network { addr, prefix }),
    {
        if prefix <= 32 {
            Some(Network { addr, prefix })
        } else {
            None
        }
    }

    pub fn mask(&self) -> (r: u32)
        requires
            self.wf(),
        ensures
            r == self.mask_spec(),
    {
        if self.prefix == 0 {
            0
        } else {
            0xffff_ffffu32 << ((32 - self.prefix) as u32)
        }
    }

    /// The lowest address of the network.
    pub fn network(&self) -> (r: u32)
        requires
            self.wf(),
        ensures
            r == self.network_spec(),
    {
        self.addr & self.mask()
    }

    /// The highest address of the network.
    pub fn broadcast(&self) -> (r: u32)
        requires
            self.wf(),
        ensures
            r == self.broadcast_spec(),
    {
        self.addr | !self.mask()
    }

    /// `2^(32 - prefix)`, which for prefix 0 does not fit in 32 bits.
    pub fn address_count(&self) -> (r: u64)
        requires
            self.wf(),
        ensures
            r == address_count(self.prefix),
    {
        let k: u64 = (32 - self.prefix) as u64;
        proof {
            lemma_u64_pow2_no_overflow(k as nat);
            lemma_u64_shl_is_mul(1, k);
        }
        1u64 << k
    }

    pub fn usable_count(&self) -> (r: u64)
        requires
            self.wf(),
        ensures
            r == usable_count(self.prefix),
    {
        let count = self.address_count();
        if count > 2 {
            count - 2
        } else {
            0
        }
    }

    /// The lowest host address, `network + 1`; none where the network has no
    /// usable hosts.
    pub fn first_host(&self) -> (r: Option<u32>)
        requires
            self.wf(),
        ensures
            r is Some <==> usable_count(self.prefix) > 0,
            r is Some ==> r->0 == self.network_spec() + 1,
    {
        if self.usable_count() == 0 {
            return None;
        }
        let net = self.network();
        proof {
            lemma_usable_prefix(self.prefix);
            let sh = (32 - self.prefix) as u32;
            let a = self.addr;
            if self.prefix > 0 {
                assert(2 <= sh <= 32 ==> ((a & (0xffff_ffffu32 << sh)) & 1u32) == 0u32)
                    by (bit_vector);
            } else {
                assert((a & 0u32) == 0u32) by (bit_vector);
            }
            assert((net & 1u32) == 0u32 ==> net < 0xffff_ffffu32) by (bit_vector);
        }
        Some(net + 1)
    }

    /// The highest host address, `broadcast - 1`; none where the network has
    /// no usable hosts.
    pub fn last_host(&self) -> (r: Option<u32>)
        requires
            self.wf(),
        ensures
            r is Some <==> usable_count(self.prefix) > 0,
            r is Some ==> r->0 == self.broadcast_spec() - 1,
    {
        if self.usable_count() == 0 {
            return None;
        }
        let b = self.broadcast();
        proof {
            lemma_usable_prefix(self.prefix);
            let sh = (32 - self.prefix) as u32;
            let a = self.addr;
            if self.prefix > 0 {
                assert(2 <= sh <= 32 ==> ((a | !(0xffff_ffffu32 << sh)) & 1u32) == 1u32)
                    by (bit_vector);
            } else {
                assert((a | !0u32) == 0xffff_ffffu32) by (bit_vector);
            }
            assert((b & 1u32) == 1u32 ==> b > 0) by (bit_vector);
        }
        Some(b - 1)
    }
}


/// The address count of a network is `2^(32 - p)`, and its usable count is
/// two less, but never below zero.
pub proof fn law_counts(p: u8)
    requires
        p <= 32,
    ensures
        address_count(p) == pow2((32 - p) as nat),
        usable_count(p) == if address_count(p) >= 2 {
            (address_count(p) - 2) as nat
        } else {
            0
        },
{
}

/// Reading `"A/p"` gives back address `A` and prefix length `p`, and
/// masking the network address again with the mask of `p` leaves it as it
/// is.
pub proof fn law_round_trip(a: u32, p: u8)
    requires
        p <= 32,
    ensures
        network_of(dotted(a) + seq!['/'] + dec(p as int), None) == Ok::<Network, ErrorKind>(
            Network { addr: a, prefix: p },
        ),
        (Network { addr: a, prefix: p }).network_spec() & mask_bits(p) == (Network {
            addr: a,
            prefix: p,
        }).network_spec(),
{
    let t = dotted(a) + seq!['/'] + dec(p as int);
    let k = dotted(a).len() as int;
    lemma_dotted_no_slash(a);
    assert(t[k] == '/');
    assert forall|j: int| 0 <= j < k implies t[j] != '/' by {
        assert(t[j] == dotted(a)[j]);
    }
    lemma_slash_index_at(t, k);
    assert(t.take(k) =~= dotted(a));
    assert(t.skip(k + 1) =~= dec(p as int));
    lemma_address_of_dotted(a);
    lemma_dec(p as int);
    let m = mask_bits(p);
    assert((a & m) & m == a & m) by (bit_vector);
}

} // verus!
