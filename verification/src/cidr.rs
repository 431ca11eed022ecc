//! The CIDR block value type: a network address with a prefix length.

use vstd::prelude::*;
use crate::errors::NetworkParseError;
use crate::parse::{parse_addr, parse_len, parsed, split_on, to_chars, views};
use crate::utils::{get_cidr_mask, prefix_mask, truncate, MAX_LENGTH};
use crate::utils::{lemma_truncate_ends, lemma_truncate_idempotent};
use vstd::set_lib::{lemma_int_range, lemma_len_subset, lemma_map_size_bound, set_int_range};

verus! {

/// What a block is, mathematically: a 32-bit network address and a prefix length.
pub ghost struct Prefix {
    pub addr: u32,
    pub len: u8,
}

impl Prefix {
    /// The length is at most 32 and no bit of the address is set outside the prefix.
    pub open spec fn wf(self) -> bool {
        self.len <= 32 && truncate(self.addr, self.len) == self.addr
    }

    /// The lowest address of the block.
    pub open spec fn first(self) -> u32 {
        self.addr
    }

    /// The highest address of the block: every bit outside the prefix is set.
    pub open spec fn last(self) -> u32 {
        self.addr | !prefix_mask(self.len)
    }

    /// Whether `addr` lies between the lowest and the highest address of the block.
    pub open spec fn covers(self, addr: u32) -> bool {
        self.first() <= addr && addr <= self.last()
    }

    /// The block of length `len` that `addr` lies in.
    pub open spec fn around(addr: u32, len: u8) -> Prefix {
        Prefix { addr: truncate(addr, len), len }
    }

    /// The highest address of a block is not below its lowest one, agrees with it on the
    /// prefix, and has a one in each of the `32 - len` bits after the prefix.
    pub proof fn lemma_last(self)
        requires
            self.wf(),
        ensures
            self.first() <= self.last(),
            truncate(self.last(), self.len) == self.first(),
            self.last() & !prefix_mask(self.len) == !prefix_mask(self.len),
    {
        let addr = self.addr;
        let len = self.len;
        assert(addr <= (addr | !prefix_mask(len)) && truncate(addr | !prefix_mask(len), len) == addr
            && (addr | !prefix_mask(len)) & !prefix_mask(len) == !prefix_mask(len)) by (bit_vector)
            requires
                len <= 32,
                truncate(addr, len) == addr,
        ;
    }

    /// A block covers exactly the addresses whose first `len` bits are its own.
    pub proof fn lemma_covers(self, addr: u32)
        requires
            self.wf(),
        ensures
            self.covers(addr) <==> truncate(addr, self.len) == self.addr,
            self.covers(addr) <==> self == Prefix::around(addr, self.len),
    {
        let min = self.addr;
        let len = self.len;
        assert((min <= addr && addr <= (min | !prefix_mask(len))) <==> truncate(addr, len) == min)
            by (bit_vector)
            requires
                len <= 32,
                truncate(min, len) == min,
        ;
    }

    /// For each length up to 32 the block around an address is well formed and covers it.
    pub proof fn lemma_around(addr: u32, len: u8)
        requires
            len <= 32,
        ensures
            Prefix::around(addr, len).wf(),
            Prefix::around(addr, len).covers(addr),
    {
        lemma_truncate_idempotent(addr, len);
        Prefix::around(addr, len).lemma_covers(addr);
    }

    /// The block that the number `k` stands for when blocks are numbered by length first
    /// and by address second.
    pub open spec fn numbered(k: int) -> Prefix {
        Prefix { addr: (k % 0x1_0000_0000) as u32, len: (k / 0x1_0000_0000) as u8 }
    }

    /// A set of well-formed blocks is finite: there are `2^32` addresses for each of the 33
    /// lengths at most.
    pub proof fn lemma_wf_set_finite(blocks: Set<Prefix>)
        requires
            forall|p: Prefix| #[trigger] blocks.contains(p) ==> p.wf(),
        ensures
            blocks.finite(),
            blocks.len() <= 33 * 0x1_0000_0000,
    {
        let numbers = set_int_range(0, 33 * 0x1_0000_0000int);
        let decode = |k: int| Prefix::numbered(k);
        let all = numbers.map(decode);
        lemma_int_range(0, 33 * 0x1_0000_0000int);
        numbers.lemma_map_finite(decode);
        lemma_map_size_bound(numbers, all, decode);
        assert forall|p: Prefix| blocks.contains(p) implies all.contains(p) by {
            let k = p.len as int * 0x1_0000_0000 + p.addr as int;
            assert(numbers.contains(k) && decode(k) == p);
        }
        lemma_len_subset(blocks, all);
    }

    /// Two blocks of one length that cover a common address are the same block.
    pub proof fn lemma_same_length_overlap(self, other: Prefix, addr: u32)
        requires
            self.wf(),
            other.wf(),
            self.len == other.len,
            self.covers(addr),
            other.covers(addr),
        ensures
            self == other,
    {
        self.lemma_covers(addr);
        other.lemma_covers(addr);
    }
}

/// An IPv4 network block. Its address never has a bit set outside its prefix.
#[derive(PartialEq, Eq, Structural, Debug, Clone, Copy, Hash)]
pub struct Ipv4Cidr {
    addr: u32,
    len: u8,
}

impl View for Ipv4Cidr {
    type V = Prefix;

    closed spec fn view(&self) -> Prefix {
        Prefix { addr: self.addr, len: self.len }
    }
}

impl Ipv4Cidr {
    /// Holds of every block that exists at run time.
    #[verifier::type_invariant]
    pub open spec fn wf(self) -> bool {
        self@.wf()
    }

    /// Blocks are equal exactly when their addresses and lengths are.
    pub proof fn lemma_view_injective(self, other: Ipv4Cidr)
        ensures
            self@ == other@ <==> self == other,
    {
    }

    /// Builds the block of `addr` and `len`.
    ///
    /// Succeeds exactly when `len` is at most 32 and truncating `addr` to `len` bits leaves
    /// it unchanged.
    pub fn new(addr: u32, len: u8) -> (r: Result<Self, NetworkParseError>)
        ensures
            (Prefix { addr, len }).wf() ==> r is Ok && r->Ok_0@ == (Prefix { addr, len }),
            !(Prefix { addr, len }).wf() ==> r == Err::<Self, NetworkParseError>(
                NetworkParseError::NetworkLengthError,
            ),
    {
        match get_cidr_mask(len) {
            Err(e) => Err(e),
            Ok(mask) => {
                if (addr & mask) != addr {
                    Err(NetworkParseError::NetworkLengthError)
                } else {
                    Ok(Self { addr, len })
                }
            },
        }
    }

    /// Wraps a single address as a block of length 32.
    pub fn new_host(addr: u32) -> (c: Self)
        ensures
            c@ == (Prefix { addr, len: 32 }),
    {
        proof {
            lemma_truncate_ends(addr);
        }
        Self { addr, len: MAX_LENGTH }
    }

    /// The prefix length.
    pub fn prefix_len(&self) -> (len: u8)
        ensures
            len == self@.len,
            len <= 32,
    {
        proof {
            use_type_invariant(self);
        }
        self.len
    }

    /// The lowest address of the block, which is its network address.
    pub fn min(&self) -> (addr: u32)
        ensures
            addr == self@.first(),
            truncate(addr, self@.len) == addr,
    {
        proof {
            use_type_invariant(self);
        }
        self.addr
    }

    /// The highest address of the block.
    pub fn max(&self) -> (addr: u32)
        ensures
            addr == self@.last(),
            self@.first() <= addr,
            truncate(addr, self@.len) == self@.first(),
            addr & !prefix_mask(self@.len) == !prefix_mask(self@.len),
    {
        proof {
            use_type_invariant(self);
            self@.lemma_last();
        }
        let mask = get_cidr_mask(self.len).unwrap();
        let reversed_mask = u32::MAX ^ mask;
        assert(reversed_mask == !mask) by (bit_vector)
            requires
                reversed_mask == 0xffff_ffffu32 ^ mask,
        ;
        self.addr | reversed_mask
    }

    /// Whether `addr` lies in the block.
    pub fn contains(&self, addr: u32) -> (b: bool)
        ensures
            b == self@.covers(addr),
            b == (truncate(addr, self@.len) == self@.addr),
    {
        proof {
            use_type_invariant(self);
            self@.lemma_covers(addr);
        }
        let lower = self.min();
        let upper = self.max();
        lower <= addr && addr <= upper
    }
}

impl std::str::FromStr for Ipv4Cidr {
    type Err = NetworkParseError;

    /// Reads a block from text of the form `A.B.C.D/len`.
    ///
    /// The text must consist of two parts with one `/` between them. The first part must
    /// be a dotted-quad address and the second a decimal number, however large; the two
    /// must then make a block as `new` asks, so the number must be 32 at most. The error
    /// tells which of these failed first.
    fn from_str(s: &str) -> (r: Result<Self, Self::Err>)
        ensures
            match r {
                Ok(cidr) => parsed(s@) == Ok::<Prefix, NetworkParseError>(cidr@),
                Err(e) => parsed(s@) == Err::<Prefix, NetworkParseError>(e),
            },
    {
        let text = to_chars(s);
        let parts = split_on(&text, '/');
        if parts.len() != 2 {
            return Err(NetworkParseError::CidrParseError);
        }
        assert(views(parts@)[0] == parts[0]@ && views(parts@)[1] == parts[1]@);
        let addr = match parse_addr(&parts[0]) {
            Some(addr) => addr,
            None => return Err(NetworkParseError::AddrParseError),
        };
        let len = match parse_len(&parts[1]) {
            Some(len) => len,
            None => return Err(NetworkParseError::ParseIntError),
        };
        Self::new(addr, len)
    }
}

} // verus!
