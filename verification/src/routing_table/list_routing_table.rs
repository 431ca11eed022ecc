//! The list backend: the blocks in the order in which they were added, searched one by one.

use vstd::prelude::*;
use crate::cidr::{Ipv4Cidr, Prefix};
use crate::routing_table::RoutingTable;
use vstd::seq_lib::lemma_filter_view_commute;

verus! {

/// The test that every block but `gone` passes.
pub open spec fn differs_from(gone: Prefix) -> spec_fn(Prefix) -> bool {
    |p: Prefix| p != gone
}

/// `blocks` with every copy of `gone` left out.
pub open spec fn without(blocks: Seq<Prefix>, gone: Prefix) -> Seq<Prefix> {
    blocks.filter(differs_from(gone))
}

/// Leaving a block out of nothing gives nothing, and leaving it out of a list with one
/// block more gives what it gives without that block, followed by that block unless it
/// is the one to leave out.
pub proof fn lemma_without_push(blocks: Seq<Prefix>, last: Prefix, gone: Prefix)
    ensures
        without(Seq::<Prefix>::empty(), gone) == Seq::<Prefix>::empty(),
        without(blocks.push(last), gone) == if last == gone {
            without(blocks, gone)
        } else {
            without(blocks, gone).push(last)
        },
{
    reveal(Seq::filter);
    blocks.lemma_filter_push(last, differs_from(gone));
}

/// A routing table kept as a list. A block that is added twice is held twice, and one
/// removal takes out every copy of it.
pub struct ListRoutingTable {
    cidrs: Vec<Ipv4Cidr>,
}

impl ListRoutingTable {
    /// The blocks held, in the order in which they were added.
    pub closed spec fn sequence(&self) -> Seq<Prefix> {
        self.cidrs@.map_values(|c: Ipv4Cidr| c@)
    }

    /// Leaving out every copy of one block takes that block, and no other, out of the set
    /// of the blocks that occur. Where the block does not occur, nothing is left out.
    proof fn lemma_without(blocks: Seq<Prefix>, gone: Prefix)
        ensures
            without(blocks, gone).to_set() == blocks.to_set().remove(gone),
            without(blocks, gone).len() <= blocks.len(),
            !blocks.contains(gone) ==> without(blocks, gone) == blocks,
        decreases blocks.len(),
    {
        let differs = differs_from(gone);
        let rest = blocks.filter(differs);
        assert forall|p: Prefix| rest.to_set().contains(p) <==> blocks.to_set().remove(
            gone,
        ).contains(p) by {
            if rest.contains(p) {
                let i = choose|i: int| 0 <= i < rest.len() && rest[i] == p;
                blocks.lemma_filter_pred(differs, i);
                blocks.lemma_filter_contains_rev(differs, p);
            }
            if blocks.contains(p) && p != gone {
                let i = choose|i: int| 0 <= i < blocks.len() && blocks[i] == p;
                blocks.lemma_filter_contains(differs, i);
            }
        }
        assert(rest.to_set() =~= blocks.to_set().remove(gone));
        blocks.lemma_filter_len(differs);
        if !blocks.contains(gone) {
            if blocks.len() == 0 {
                assert(blocks =~= Seq::<Prefix>::empty());
                lemma_without_push(blocks, gone, gone);
            } else {
                let front = blocks.drop_last();
                assert(blocks =~= front.push(blocks.last()));
                assert(blocks.last() == blocks[blocks.len() - 1]);
                assert forall|i: int| 0 <= i < front.len() implies front[i] != gone by {
                    assert(front[i] == blocks[i]);
                }
                Self::lemma_without(front, gone);
                lemma_without_push(front, blocks.last(), gone);
            }
        }
    }

    /// The test that every block but `cidr` passes.
    spec fn other_than(cidr: Ipv4Cidr) -> spec_fn(Ipv4Cidr) -> bool {
        |c: Ipv4Cidr| c != cidr
    }

    /// An empty table.
    pub fn new() -> (table: Self)
        ensures
            table.wf(),
            table.sequence() == Seq::<Prefix>::empty(),
            table.entries() == Set::<Prefix>::empty(),
            table.spec_size() == 0,
    {
        let table = Self { cidrs: Vec::new() };
        assert(table.sequence() =~= Seq::<Prefix>::empty());
        assert(table.entries() =~= Set::<Prefix>::empty());
        table
    }
}

impl Default for ListRoutingTable {
    fn default() -> (table: Self)
        ensures
            table.wf(),
            table.sequence() == Seq::<Prefix>::empty(),
            table.entries() == Set::<Prefix>::empty(),
            table.spec_size() == 0,
    {
        Self::new()
    }
}

impl RoutingTable for ListRoutingTable {
    /// Every block held is well formed.
    closed spec fn wf(&self) -> bool {
        forall|i: int| 0 <= i < self.cidrs.len() ==> (#[trigger] self.cidrs[i]).wf()
    }

    /// The blocks that occur in the list.
    open spec fn entries(&self) -> Set<Prefix> {
        self.sequence().to_set()
    }

    /// The length of the list: a block that was added twice counts twice.
    open spec fn spec_size(&self) -> nat {
        self.sequence().len()
    }

    proof fn lemma_entries(&self) {
        assert forall|p: Prefix| #[trigger] self.entries().contains(p) implies p.wf() by {
            let i = choose|i: int| 0 <= i < self.sequence().len() && self.sequence()[i] == p;
            assert(self.cidrs[i].wf());
        }
        Prefix::lemma_wf_set_finite(self.entries());
        self.sequence().lemma_cardinality_of_set();
        assert(self.sequence().len() == self.cidrs.len());
    }

    /// Appends `cidr` to the list.
    fn add_cidr(&mut self, cidr: Ipv4Cidr)
        ensures
            final(self).sequence() == old(self).sequence().push(cidr@),
    {
        proof {
            use_type_invariant(&cidr);
        }
        self.cidrs.push(cidr);
        proof {
            assert(self.sequence() =~= old(self).sequence().push(cidr@));
            old(self).sequence().lemma_push_to_set_commute(cidr@);
        }
    }

    /// Takes every copy of `cidr` out of the list and keeps the order of the others.
    fn remove_cidr(&mut self, cidr: Ipv4Cidr)
        ensures
            final(self).sequence() == without(old(self).sequence(), cidr@),
    {
        let ghost keep = Self::other_than(cidr);
        let ghost before = self.cidrs@;
        let count = self.cidrs.len();
        let mut kept: usize = 0;
        let mut next: usize = 0;
        while next < count
            invariant
                keep == Self::other_than(cidr),
                self.cidrs.len() == count == before.len(),
                kept <= next <= count,
                self.cidrs@.take(kept as int) == before.take(next as int).filter(keep),
                forall|i: int| next <= i < count ==> self.cidrs[i] == before[i],
                forall|i: int| 0 <= i < count ==> (#[trigger] self.cidrs[i]).wf(),
            decreases count - next,
        {
            let current = self.cidrs[next];
            let ghost so_far = self.cidrs@.take(kept as int);
            proof {
                use_type_invariant(&current);
                assert(current == before[next as int]);
                before.lemma_take_succ_push(next as int);
                before.take(next as int).lemma_filter_push(current, keep);
                assert(before.take(next + 1) == before.take(next as int).push(current));
            }
            if current != cidr {
                self.cidrs[kept] = current;
                proof {
                    assert(keep(current));
                    assert(before.take(next + 1).filter(keep) == so_far.push(current));
                    assert(self.cidrs@.take(kept + 1) =~= so_far.push(current));
                }
                kept = kept + 1;
            } else {
                proof {
                    assert(!keep(current));
                    assert(before.take(next + 1).filter(keep) == so_far);
                }
            }
            next = next + 1;
        }
        self.cidrs.truncate(kept);
        proof {
            before.lemma_take_len();
            assert(self.cidrs@ =~= before.filter(keep));
            let differs = differs_from(cidr@);
            assert forall|c: Ipv4Cidr| keep(c) <==> differs(c.view()) by {
                c.lemma_view_injective(cidr);
            }
            lemma_filter_view_commute(before, keep, differs);
            assert(self.sequence() =~= without(old(self).sequence(), cidr@));
            Self::lemma_without(old(self).sequence(), cidr@);
        }
    }

    /// Goes through the list and keeps the block of greatest prefix length among those
    /// that contain `addr`; of two such blocks of equal length it keeps the earlier one.
    fn find_exact_cidr(&self, addr: u32) -> (found: Option<Ipv4Cidr>) {
        let mut best: Option<Ipv4Cidr> = None;
        let count = self.cidrs.len();
        let mut next: usize = 0;
        while next < count
            invariant
                next <= count == self.cidrs.len(),
                match best {
                    Some(chosen) => {
                        &&& chosen@.covers(addr)
                        &&& exists|i: int| 0 <= i < next && self.cidrs[i] == chosen
                        &&& forall|i: int|
                            0 <= i < next && (#[trigger] self.cidrs[i])@.covers(addr)
                                ==> self.cidrs[i]@.len <= chosen@.len
                    },
                    None => forall|i: int|
                        0 <= i < next ==> !(#[trigger] self.cidrs[i])@.covers(addr),
                },
            decreases count - next,
        {
            let cidr = self.cidrs[next];
            if cidr.contains(addr) {
                best = match best {
                    None => Some(cidr),
                    Some(other) => if other.prefix_len() < cidr.prefix_len() {
                        Some(cidr)
                    } else {
                        best
                    },
                };
            }
            next = next + 1;
        }
        proof {
            match best {
                Some(chosen) => {
                    let at = choose|i: int| 0 <= i < count && self.cidrs[i] == chosen;
                    assert(self.sequence()[at] == chosen@);
                },
                None => {},
            }
        }
        best
    }

    fn size(&self) -> (n: usize) {
        self.cidrs.len()
    }
}

} // verus!
