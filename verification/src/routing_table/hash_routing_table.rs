//! The hash backend: one set of network addresses for each prefix length.

use vstd::prelude::*;
use std::collections::HashSet;
use crate::cidr::{Ipv4Cidr, Prefix};
use crate::routing_table::RoutingTable;
use crate::utils::{prefix_mask, truncate};
use crate::utils::{lemma_truncate_ends, lemma_truncate_nested};
use vstd::set_lib::{lemma_len_subset, lemma_map_size, lemma_set_disjoint_lens};
use vstd::relations::injective_on;

verus! {

broadcast use vstd::std_specs::hash::group_hash_axioms;

/// A routing table kept as 33 buckets, one for each prefix length from 0 to 32. A bucket
/// holds the network addresses of the blocks of its length.
///
/// A block that is added while it is an entry stays one entry and counts once.
pub struct HashRoutingTable {
    cidrs: Vec<HashSet<u32>>,
}

impl HashRoutingTable {
    /// The entries whose prefix length is below `bound`.
    spec fn below(self, bound: int) -> Set<Prefix> {
        Set::new(
            |p: Prefix| p.len < bound && p.len <= 32 && self.cidrs[p.len as int]@.contains(p.addr),
        )
    }

    /// The entries whose prefix length is `len`.
    spec fn layer(self, len: u8) -> Set<Prefix> {
        Set::new(|p: Prefix| p.len == len && self.cidrs[len as int]@.contains(p.addr))
    }

    /// The entries of one more length are the entries so far and those of that length, and
    /// these number as many as the bucket of that length holds.
    proof fn lemma_below_next(self, len: u8)
        requires
            self.wf(),
            len <= 32,
        ensures
            self.below(len + 1).len() == self.below(len as int).len()
                + self.cidrs[len as int]@.len(),
            self.below(len + 1).len() <= self.entries().len(),
    {
        let bucket = self.cidrs[len as int]@;
        let lift = |a: u32| Prefix { addr: a, len };
        assert(injective_on(lift, bucket)) by {
            assert forall|a: u32, b: u32|
                bucket.contains(a) && bucket.contains(b) && lift(a) == lift(b) implies a == b by {
                assert(lift(a).addr == lift(b).addr);
            }
        }
        assert(bucket.map(lift) =~= self.layer(len)) by {
            assert forall|p: Prefix| self.layer(len).contains(p) implies bucket.map(lift).contains(
                p,
            ) by {
                assert(bucket.contains(p.addr) && lift(p.addr) == p);
            }
        }
        lemma_map_size(bucket, self.layer(len), lift);
        self.lemma_entries();
        lemma_len_subset(self.below(len as int), self.entries());
        lemma_len_subset(self.below(len + 1), self.entries());
        lemma_set_disjoint_lens(self.below(len as int), self.layer(len));
        assert(self.below(len as int) + self.layer(len) =~= self.below(len + 1));
    }

    /// An empty table.
    pub fn new() -> (table: Self)
        ensures
            table.wf(),
            table.entries() == Set::<Prefix>::empty(),
            table.spec_size() == 0,
    {
        let mut cidrs: Vec<HashSet<u32>> = Vec::with_capacity(33);
        for i in 0..33
            invariant
                cidrs.len() == i,
                forall|j: int| 0 <= j < i ==> (#[trigger] cidrs[j])@ == Set::<u32>::empty(),
        {
            cidrs.push(HashSet::new());
        }
        let table = Self { cidrs };
        assert(table.entries() =~= Set::<Prefix>::empty());
        table
    }
}

impl RoutingTable for HashRoutingTable {
    /// There are 33 buckets, each bucket is finite and holds only addresses that have no
    /// bit set outside the prefix of the bucket's length, and the number of entries fits
    /// in a `usize`.
    closed spec fn wf(&self) -> bool {
        &&& self.cidrs.len() == 33
        &&& forall|i: int| 0 <= i < 33 ==> (#[trigger] self.cidrs[i])@.finite()
        &&& forall|i: int, a: u32|
            0 <= i < 33 && #[trigger] self.cidrs[i]@.contains(a) ==> truncate(a, i as u8) == a
        &&& self.entries().len() <= usize::MAX
    }

    /// The blocks whose network address lies in the bucket of their length.
    closed spec fn entries(&self) -> Set<Prefix> {
        Set::new(|p: Prefix| p.len <= 32 && self.cidrs[p.len as int]@.contains(p.addr))
    }

    /// The number of entries: an entry that is added twice counts once.
    open spec fn spec_size(&self) -> nat {
        self.entries().len()
    }

    proof fn lemma_entries(&self) {
        Prefix::lemma_wf_set_finite(self.entries());
    }

    /// Puts the network address of `cidr` into the bucket of its length.
    fn add_cidr(&mut self, cidr: Ipv4Cidr) {
        proof {
            use_type_invariant(&cidr);
            self.lemma_entries();
        }
        let len = cidr.prefix_len();
        let addr = cidr.min();
        self.cidrs[len as usize].insert(addr);
        assert(self.entries() =~= old(self).entries().insert(cidr@));
    }

    /// Takes the network address of `cidr` out of the bucket of its length.
    fn remove_cidr(&mut self, cidr: Ipv4Cidr) {
        proof {
            use_type_invariant(&cidr);
            self.lemma_entries();
        }
        let len = cidr.prefix_len();
        let addr = cidr.min();
        self.cidrs[len as usize].remove(&addr);
        assert(self.entries() =~= old(self).entries().remove(cidr@));
    }

    /// Tries the lengths from 32 down to 0: masks the address to the length and looks the
    /// result up in the bucket of that length. The first hit is the longest match.
    fn find_exact_cidr(&self, addr: u32) -> (found: Option<Ipv4Cidr>) {
        let mut bit_mask: u32 = u32::MAX;
        let mut addr_bits: u32 = addr;
        let mut next: u8 = 33;
        proof {
            lemma_truncate_ends(addr);
        }
        while next > 0
            invariant
                self.wf(),
                next <= 33,
                next > 0 ==> bit_mask == prefix_mask((next - 1) as u8),
                next > 0 ==> addr_bits & bit_mask == truncate(addr, (next - 1) as u8),
                forall|l: u8|
                    next <= l <= 32 ==> !self.entries().contains(
                        #[trigger] Prefix::around(addr, l),
                    ),
            decreases next,
        {
            let len: u8 = next - 1;
            addr_bits &= bit_mask;
            let ghost mask = bit_mask;
            bit_mask <<= 1;
            if self.cidrs[len as usize].contains(&addr_bits) {
                proof {
                    Prefix::lemma_around(addr, len);
                    assert forall|p: Prefix| #[trigger]
                        self.entries().contains(p) && p.covers(addr) implies p.len <= len by {
                        p.lemma_covers(addr);
                    }
                }
                return Some(Ipv4Cidr::new(addr_bits, len).unwrap());
            }
            proof {
                if len > 0 {
                    let shorter: u8 = (len - 1) as u8;
                    lemma_truncate_nested(addr, shorter, len);
                    assert(bit_mask == prefix_mask(shorter)) by (bit_vector)
                        requires
                            0 < len <= 32,
                            shorter == len - 1,
                            mask == prefix_mask(len),
                            bit_mask == mask << 1u32,
                    ;
                }
            }
            next = len;
        }
        proof {
            assert forall|p: Prefix| #[trigger] self.entries().contains(p) implies !p.covers(
                addr,
            ) by {
                if p.covers(addr) {
                    p.lemma_covers(addr);
                }
            }
        }
        None
    }

    /// Adds up the sizes of the buckets, which gives the number of entries.
    fn size(&self) -> (n: usize)
        ensures
            n == self.entries().len(),
    {
        let mut total: usize = 0;
        let mut len: u8 = 0;
        assert(self.below(0) =~= Set::<Prefix>::empty());
        while len < 33
            invariant
                self.wf(),
                len <= 33,
                total == self.below(len as int).len(),
            decreases 33 - len,
        {
            proof {
                self.lemma_below_next(len);
            }
            total = total + self.cidrs[len as usize].len();
            len = len + 1;
        }
        assert(self.below(33) =~= self.entries());
        total
    }
}

} // verus!
