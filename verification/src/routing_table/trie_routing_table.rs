//! The trie backend: a binary trie over the bits of an address, most significant bit first.

use vstd::prelude::*;
use crate::cidr::{Ipv4Cidr, Prefix};
use crate::routing_table::RoutingTable;
use crate::utils::{bit_at, cut_addr, truncate, MAX_LENGTH};
use crate::utils::{
    lemma_bit_at_range, lemma_prefix_extends, lemma_prefix_fixes_bit, lemma_truncate_ends,
    lemma_truncate_idempotent,
};

verus! {

/// A node of the trie. It owns the subtrees of the addresses whose next bit is 0 and 1.
struct TrieNode {
    zero: Option<Box<TrieNode>>,
    one: Option<Box<TrieNode>>,
    is_leaf: bool,
}

impl TrieNode {
    /// The subtree for the next bit `bit`, if there is one.
    spec fn child(self, bit: u32) -> Option<Box<TrieNode>> {
        if bit == 0 {
            self.zero
        } else {
            self.one
        }
    }

    /// Whether the walk from this node, which lies `depth` bits deep, along the bits
    /// `depth + 1` to `len` of `addr` stays inside the trie and ends at a marked node.
    spec fn marks(self, addr: u32, depth: u8, len: u8) -> bool
        decreases len - depth,
    {
        if depth >= len {
            self.is_leaf
        } else {
            match self.child(bit_at(addr, (depth + 1) as u8)) {
                Some(next) => next.marks(addr, (depth + 1) as u8, len),
                None => false,
            }
        }
    }

    /// A walk reads no bit of the address beyond the first `len`.
    proof fn lemma_marks_reads_prefix(self, a: u32, b: u32, depth: u8, len: u8)
        requires
            depth <= len <= 32,
            truncate(a, len) == truncate(b, len),
        ensures
            self.marks(a, depth, len) == self.marks(b, depth, len),
        decreases len - depth,
    {
        if depth < len {
            let next: u8 = (depth + 1) as u8;
            lemma_prefix_fixes_bit(a, b, len, next);
            match self.child(bit_at(a, next)) {
                Some(sub) => sub.lemma_marks_reads_prefix(a, b, next, len),
                None => {},
            }
        }
    }

    fn new(is_leaf: bool) -> (node: Self)
        ensures
            node.is_leaf == is_leaf,
            node.zero is None,
            node.one is None,
    {
        Self { zero: None, one: None, is_leaf }
    }

    fn get(&self, idx: usize) -> (sub: Option<&TrieNode>)
        requires
            idx < 2,
        ensures
            match sub {
                Some(node) => self.child(idx as u32) == Some(Box::new(*node)),
                None => self.child(idx as u32) is None,
            },
    {
        let slot = if idx == 0 {
            &self.zero
        } else {
            &self.one
        };
        match slot {
            Some(node) => Some(&**node),
            None => None,
        }
    }

    fn get_or_add(&mut self, idx: usize) -> (sub: &mut TrieNode)
        requires
            idx < 2,
        ensures
            match old(self).child(idx as u32) {
                Some(node) => *sub == *node,
                None => !sub.is_leaf && sub.zero is None && sub.one is None,
            },
            final(self).is_leaf == old(self).is_leaf,
            final(self).child(idx as u32) == Some(Box::new(*final(sub))),
            final(self).child((1 - idx) as u32) == old(self).child((1 - idx) as u32),
    {
        if idx == 0 {
            if self.zero.is_none() {
                self.zero = Some(Box::new(TrieNode::new(false)));
            }
            match &mut self.zero {
                Some(node) => &mut **node,
                None => vstd::pervasive::unreached(),
            }
        } else {
            if self.one.is_none() {
                self.one = Some(Box::new(TrieNode::new(false)));
            }
            match &mut self.one {
                Some(node) => &mut **node,
                None => vstd::pervasive::unreached(),
            }
        }
    }

    fn mark_leaf(&mut self)
        ensures
            final(self).is_leaf,
            final(self).zero == old(self).zero,
            final(self).one == old(self).one,
    {
        self.is_leaf = true;
    }

    fn unmark_leaf(&mut self)
        ensures
            !final(self).is_leaf,
            final(self).zero == old(self).zero,
            final(self).one == old(self).one,
    {
        self.is_leaf = false;
    }

    /// Marks the node at the end of the walk along `addr`, making the nodes that the walk
    /// lacks. Says whether that node was marked before.
    fn insert(&mut self, addr: u32, depth: u8, len: u8) -> (present: bool)
        requires
            depth <= len <= 32,
        ensures
            present == old(self).marks(addr, depth, len),
            forall|a: u32, l: u8|
                depth <= l <= 32 && truncate(a, depth) == truncate(addr, depth) ==> (
                #[trigger] final(self).marks(a, depth, l) <==> old(self).marks(a, depth, l) || (l
                    == len && truncate(a, len) == truncate(addr, len))),
        decreases len - depth,
    {
        if depth == len {
            let was_leaf = self.is_leaf;
            self.mark_leaf();
            was_leaf
        } else {
            let next: u8 = depth + 1;
            let bit = TrieRoutingTable::take_bit(addr, next);
            let sub = self.get_or_add(bit as usize);
            let ghost before = *sub;
            let present = sub.insert(addr, next, len);
            let ghost after = *sub;
            proof {
                assert forall|a: u32, l: u8|
                    depth <= l <= 32 && truncate(a, depth) == truncate(addr, depth) implies (
                #[trigger] self.marks(a, depth, l) <==> old(self).marks(a, depth, l) || (l == len
                    && truncate(a, len) == truncate(addr, len))) by {
                    if l > depth {
                        lemma_prefix_extends(a, addr, depth);
                        lemma_bit_at_range(a, next);
                        if bit_at(a, next) == bit {
                            assert(after.marks(a, next, l) <==> before.marks(a, next, l) || (l
                                == len && truncate(a, len) == truncate(addr, len)));
                            assert(old(self).child(bit) is None ==> !before.marks(a, next, l));
                        } else if l >= len && truncate(a, len) == truncate(addr, len) {
                            lemma_prefix_fixes_bit(a, addr, len, next);
                        }
                    }
                }
            }
            present
        }
    }

    /// Unmarks the node at the end of the walk along `addr`, if the walk stays inside the
    /// trie. Says whether that node was marked before.
    fn erase(&mut self, addr: u32, depth: u8, len: u8) -> (removed: bool)
        requires
            depth <= len <= 32,
        ensures
            removed == old(self).marks(addr, depth, len),
            forall|a: u32, l: u8|
                depth <= l <= 32 && truncate(a, depth) == truncate(addr, depth) ==> (
                #[trigger] final(self).marks(a, depth, l) <==> old(self).marks(a, depth, l) && !(l
                    == len && truncate(a, len) == truncate(addr, len))),
        decreases len - depth,
    {
        if depth == len {
            let was_leaf = self.is_leaf;
            self.unmark_leaf();
            was_leaf
        } else {
            let next: u8 = depth + 1;
            let bit = TrieRoutingTable::take_bit(addr, next);
            let ghost before = self.child(bit);
            let removed = if bit == 0 {
                match &mut self.zero {
                    Some(sub) => sub.erase(addr, next, len),
                    None => false,
                }
            } else {
                match &mut self.one {
                    Some(sub) => sub.erase(addr, next, len),
                    None => false,
                }
            };
            proof {
                assert forall|a: u32, l: u8|
                    depth <= l <= 32 && truncate(a, depth) == truncate(addr, depth) implies (
                #[trigger] self.marks(a, depth, l) <==> old(self).marks(a, depth, l) && !(l == len
                    && truncate(a, len) == truncate(addr, len))) by {
                    if l > depth {
                        lemma_prefix_extends(a, addr, depth);
                        lemma_bit_at_range(a, next);
                        if bit_at(a, next) == bit {
                            if before is Some {
                                assert(self.child(bit).unwrap().marks(a, next, l)
                                    <==> before.unwrap().marks(a, next, l) && !(l == len
                                    && truncate(a, len) == truncate(addr, len)));
                            }
                        } else if l >= len && truncate(a, len) == truncate(addr, len) {
                            lemma_prefix_fixes_bit(a, addr, len, next);
                        }
                    }
                }
            }
            removed
        }
    }
}

/// A routing table kept as a binary trie, 32 levels deep at most.
///
/// A block that is added while it is an entry stays one entry and counts once, and the
/// removal of a block that is no entry changes nothing: the size is the number of entries.
pub struct TrieRoutingTable {
    root: TrieNode,
    size: usize,
}

impl TrieRoutingTable {
    /// An empty table.
    pub fn new() -> (table: Self)
        ensures
            table.wf(),
            table.entries() == Set::<Prefix>::empty(),
            table.spec_size() == 0,
    {
        let table = Self { root: TrieNode::new(false), size: 0 };
        assert(table.entries() =~= Set::<Prefix>::empty());
        table
    }

    /// Bit number `r_idx` of `bit_addr`, counted from the most significant bit, which is
    /// bit 1.
    fn take_bit(bit_addr: u32, r_idx: u8) -> (bit: u32)
        requires
            1 <= r_idx <= 32,
        ensures
            bit == bit_at(bit_addr, r_idx),
            bit < 2,
    {
        proof {
            lemma_bit_at_range(bit_addr, r_idx);
        }
        (bit_addr >> (MAX_LENGTH - r_idx) as u32) & 1
    }
}

impl RoutingTable for TrieRoutingTable {
    /// The size counter is the number of entries.
    closed spec fn wf(&self) -> bool {
        self.size == self.entries().len()
    }

    /// The well-formed blocks whose bits lead from the root to a marked node.
    closed spec fn entries(&self) -> Set<Prefix> {
        Set::new(|p: Prefix| p.wf() && self.root.marks(p.addr, 0, p.len))
    }

    /// The number of entries: a block that is added twice counts once.
    open spec fn spec_size(&self) -> nat {
        self.entries().len()
    }

    proof fn lemma_entries(&self) {
        Prefix::lemma_wf_set_finite(self.entries());
    }

    /// Walks one level down for each bit of the prefix, makes the nodes that are missing
    /// and marks the last one. Counts the block only if that node was not marked before,
    /// which is to say if the block was no entry.
    fn add_cidr(&mut self, cidr: Ipv4Cidr)
        ensures
            final(self).spec_size() == old(self).spec_size() + if old(self).entries().contains(
                cidr@,
            ) {
                0nat
            } else {
                1nat
            },
    {
        proof {
            use_type_invariant(&cidr);
            Prefix::lemma_wf_set_finite(self.entries());
        }
        let addr = cidr.min();
        let len = cidr.prefix_len();
        let present = self.root.insert(addr, 0, len);
        proof {
            assert forall|p: Prefix|
                self.entries().contains(p) <==> old(self).entries().insert(cidr@).contains(
                    p,
                ) by {
                lemma_truncate_ends(p.addr);
                lemma_truncate_ends(addr);
            }
            assert(self.entries() =~= old(self).entries().insert(cidr@));
        }
        if !present {
            self.size = self.size + 1;
        }
    }

    /// Walks one level down for each bit of the prefix and unmarks the last node. Stops
    /// early, with nothing changed, where the walk leaves the trie. Discounts the block
    /// only if that node was marked before, which is to say if the block was an entry.
    fn remove_cidr(&mut self, cidr: Ipv4Cidr)
        ensures
            final(self).spec_size() == if old(self).entries().contains(cidr@) {
                old(self).spec_size() - 1
            } else {
                old(self).spec_size() as int
            },
    {
        proof {
            use_type_invariant(&cidr);
            Prefix::lemma_wf_set_finite(self.entries());
        }
        let addr = cidr.min();
        let len = cidr.prefix_len();
        let removed = self.root.erase(addr, 0, len);
        proof {
            assert forall|p: Prefix|
                self.entries().contains(p) <==> old(self).entries().remove(cidr@).contains(
                    p,
                ) by {
                lemma_truncate_ends(p.addr);
                lemma_truncate_ends(addr);
            }
            assert(self.entries() =~= old(self).entries().remove(cidr@));
        }
        if removed {
            self.size = self.size - 1;
        }
    }

    /// Walks down along the bits of `addr` as far as the trie goes and remembers the
    /// deepest marked node on the way.
    fn find_exact_cidr(&self, addr: u32) -> (found: Option<Ipv4Cidr>) {
        let mut best_len: Option<u8> = if self.root.is_leaf {
            Some(0)
        } else {
            None
        };
        let mut node: &TrieNode = &self.root;
        let mut len: u8 = 0;
        while len < MAX_LENGTH
            invariant
                len <= 32,
                forall|l: u8|
                    len <= l <= 32 ==> (#[trigger] self.root.marks(addr, 0, l) <==> node.marks(
                        addr,
                        len,
                        l,
                    )),
                match best_len {
                    Some(best) => best <= len && self.root.marks(addr, 0, best) && forall|l: u8|
                        best < l <= len ==> !#[trigger] self.root.marks(addr, 0, l),
                    None => forall|l: u8| l <= len ==> !#[trigger] self.root.marks(addr, 0, l),
                },
            ensures
                match best_len {
                    Some(best) => best <= 32 && self.root.marks(addr, 0, best) && forall|l: u8|
                        best < l <= 32 ==> !#[trigger] self.root.marks(addr, 0, l),
                    None => forall|l: u8| l <= 32 ==> !#[trigger] self.root.marks(addr, 0, l),
                },
            decreases 32 - len,
        {
            let bit = Self::take_bit(addr, len + 1);
            match node.get(bit as usize) {
                None => {
                    break ;
                },
                Some(sub) => {
                    assert(node.marks(addr, len, (len + 1) as u8) == sub.marks(
                        addr,
                        (len + 1) as u8,
                        (len + 1) as u8,
                    ));
                    assert(self.root.marks(addr, 0, (len + 1) as u8) <==> sub.is_leaf);
                    node = sub;
                    len = len + 1;
                    if node.is_leaf {
                        best_len = Some(len);
                    }
                },
            }
        }
        match best_len {
            None => {
                proof {
                    assert forall|p: Prefix| #[trigger]
                        self.entries().contains(p) implies !p.covers(addr) by {
                        if p.covers(addr) {
                            p.lemma_covers(addr);
                            lemma_truncate_idempotent(addr, p.len);
                            self.root.lemma_marks_reads_prefix(p.addr, addr, 0, p.len);
                        }
                    }
                }
                None
            },
            Some(best) => {
                let truncated_addr = cut_addr(addr, best).unwrap();
                proof {
                    Prefix::lemma_around(addr, best);
                    lemma_truncate_idempotent(addr, best);
                    self.root.lemma_marks_reads_prefix(truncated_addr, addr, 0, best);
                    assert forall|p: Prefix| #[trigger]
                        self.entries().contains(p) && p.covers(addr) implies p.len <= best by {
                        p.lemma_covers(addr);
                        lemma_truncate_idempotent(addr, p.len);
                        self.root.lemma_marks_reads_prefix(p.addr, addr, 0, p.len);
                    }
                }
                Some(Ipv4Cidr::new(truncated_addr, best).unwrap())
            },
        }
    }

    /// The size counter, which is the number of entries.
    fn size(&self) -> (n: usize)
        ensures
            n == self.entries().len(),
    {
        self.size
    }
}

} // verus!
