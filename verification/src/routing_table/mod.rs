//! Longest-prefix-match tables: the contract that every backend meets.

use vstd::prelude::*;
use crate::cidr::{Ipv4Cidr, Prefix};

pub mod hash_routing_table;
pub mod list_routing_table;
pub mod trie_routing_table;

pub use hash_routing_table::HashRoutingTable;
pub use list_routing_table::ListRoutingTable;
pub use trie_routing_table::TrieRoutingTable;

verus! {

/// Whether `result` answers a lookup of `addr` among `entries`: it is the entry of greatest
/// prefix length among those that cover `addr`, or nothing when no entry covers `addr`.
pub open spec fn is_longest_match(entries: Set<Prefix>, addr: u32, result: Option<Prefix>) -> bool {
    match result {
        Some(best) => {
            &&& entries.contains(best)
            &&& best.covers(addr)
            &&& forall|p: Prefix| #[trigger]
                entries.contains(p) && p.covers(addr) ==> p.len <= best.len
        },
        None => forall|p: Prefix| #[trigger] entries.contains(p) ==> !p.covers(addr),
    }
}

/// What a lookup returned, as a mathematical value.
pub open spec fn answer(found: Option<Ipv4Cidr>) -> Option<Prefix> {
    match found {
        Some(cidr) => Some(cidr@),
        None => None,
    }
}

/// Among well-formed entries a lookup has one answer only.
pub proof fn lemma_longest_match_unique(
    entries: Set<Prefix>,
    addr: u32,
    first: Option<Prefix>,
    second: Option<Prefix>,
)
    requires
        forall|p: Prefix| #[trigger] entries.contains(p) ==> p.wf(),
        is_longest_match(entries, addr, first),
        is_longest_match(entries, addr, second),
    ensures
        first == second,
{
    match (first, second) {
        (Some(a), Some(b)) => {
            assert(entries.contains(a) && entries.contains(b));
            a.lemma_same_length_overlap(b, addr);
        },
        (Some(a), None) => {
            assert(entries.contains(a));
        },
        (None, Some(b)) => {
            assert(entries.contains(b));
        },
        (None, None) => {},
    }
}

/// A store of CIDR blocks that answers, for an address, which stored block covers it most
/// specifically.
///
/// The entries of a table form a set, and lookups depend on nothing else. Backends differ
/// only in what `size` makes of a block that is added while it is an entry: the hash
/// table and the trie count it once, the list counts every copy that it holds.
pub trait RoutingTable {
    /// The table's internal invariant. Every constructor establishes it and every method
    /// keeps it.
    spec fn wf(&self) -> bool;

    /// The blocks that lookups see.
    spec fn entries(&self) -> Set<Prefix>;

    /// The number that `size` reports.
    spec fn spec_size(&self) -> nat;

    /// Every entry is well formed, there are finitely many of them, and `size` reports no
    /// fewer than there are.
    proof fn lemma_entries(&self)
        requires
            self.wf(),
        ensures
            forall|p: Prefix| #[trigger] self.entries().contains(p) ==> p.wf(),
            self.entries().finite(),
            self.entries().len() <= self.spec_size() <= usize::MAX,
    ;

    /// Adds `cidr` to the entries. The size grows by one if `cidr` was no entry, and by
    /// one at most if it was.
    fn add_cidr(&mut self, cidr: Ipv4Cidr)
        requires
            old(self).wf(),
            old(self).spec_size() < usize::MAX,
        ensures
            final(self).wf(),
            final(self).entries() == old(self).entries().insert(cidr@),
            old(self).spec_size() <= final(self).spec_size() <= old(self).spec_size() + 1,
            !old(self).entries().contains(cidr@) ==> final(self).spec_size() == old(
                self,
            ).spec_size() + 1,
    ;

    /// Removes `cidr` from the entries; changes nothing if it is not among them.
    fn remove_cidr(&mut self, cidr: Ipv4Cidr)
        requires
            old(self).wf(),
        ensures
            final(self).wf(),
            final(self).entries() == old(self).entries().remove(cidr@),
            final(self).spec_size() <= old(self).spec_size(),
            !old(self).entries().contains(cidr@) ==> final(self).spec_size() == old(
                self,
            ).spec_size(),
    ;

    /// Finds the entry of greatest prefix length that covers `addr`.
    fn find_exact_cidr(&self, addr: u32) -> (found: Option<Ipv4Cidr>)
        requires
            self.wf(),
        ensures
            is_longest_match(self.entries(), addr, answer(found)),
    ;

    /// The number of blocks held, as the backend counts them.
    fn size(&self) -> (n: usize)
        requires
            self.wf(),
        ensures
            n == self.spec_size(),
    ;
}

/// Two tables that hold the same entries give the same answer to every lookup, whatever
/// their backends are.
pub proof fn lemma_same_entries_same_answer<A: RoutingTable, B: RoutingTable>(
    a: &A,
    b: &B,
    addr: u32,
    from_a: Option<Prefix>,
    from_b: Option<Prefix>,
)
    requires
        a.wf(),
        b.wf(),
        a.entries() == b.entries(),
        is_longest_match(a.entries(), addr, from_a),
        is_longest_match(b.entries(), addr, from_b),
    ensures
        from_a == from_b,
{
    a.lemma_entries();
    lemma_longest_match_unique(a.entries(), addr, from_a, from_b);
}

/// One call that changes a table.
pub ghost enum Change {
    /// `add_cidr` with this block.
    Add(Prefix),
    /// `remove_cidr` with this block.
    Remove(Prefix),
}

/// The entries of a table that was empty at first and has had `changes` made to it since,
/// one after another.
pub open spec fn entries_after(changes: Seq<Change>) -> Set<Prefix>
    decreases changes.len(),
{
    if changes.len() == 0 {
        Set::empty()
    } else {
        let before = entries_after(changes.drop_last());
        match changes.last() {
            Change::Add(block) => before.insert(block),
            Change::Remove(block) => before.remove(block),
        }
    }
}

/// After the same calls of `add_cidr` and `remove_cidr`, made in the same order to tables
/// that were empty at first, any two backends give the same answer to every lookup.
pub proof fn lemma_backends_agree<A: RoutingTable, B: RoutingTable>(
    a: &A,
    b: &B,
    changes: Seq<Change>,
    addr: u32,
    from_a: Option<Prefix>,
    from_b: Option<Prefix>,
)
    requires
        a.wf(),
        b.wf(),
        a.entries() == entries_after(changes),
        b.entries() == entries_after(changes),
        is_longest_match(a.entries(), addr, from_a),
        is_longest_match(b.entries(), addr, from_b),
    ensures
        from_a == from_b,
{
    lemma_same_entries_same_answer(a, b, addr, from_a, from_b);
}

} // verus!
