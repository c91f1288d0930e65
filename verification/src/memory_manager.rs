//! The memory manager: first-fit allocation and coalescing deallocation over
//! the tag chains of one or more regions.
//!
//! Both operations are specified by their counterparts on sequences of
//! chains in [`crate::manager_model`].

use crate::boundary_tag::{as_int, TagModel};
use crate::chain_model::{coalesced, fresh_chain, is_block_at, is_chain, release_at};
use crate::manager_model::{
    are_chains, block_place, block_place_from, can_malloc, candidate, candidate_from,
    fresh_chains, lemma_block_place, lemma_update_are_chains, no_block_before, no_tag_fits,
    spec_free, spec_malloc,
};
use crate::memory_region::{MemoryRegion, Span};
use crate::tag_chain::TagChain;
use vstd::prelude::*;

verus! {

/// The allocator over the tag chains of the regions it was given.
#[derive(Debug)]
pub struct MemoryManager {
    chains: Vec<TagChain>,
}

impl View for MemoryManager {
    type V = Seq<Seq<TagModel>>;

    closed spec fn view(&self) -> Seq<Seq<TagModel>> {
        Seq::new(self.chains@.len(), |c: int| self.chains@[c]@)
    }
}

impl MemoryManager {
    /// The spans of the managed regions, in the order in which they were
    /// given.
    pub closed spec fn spans(&self) -> Seq<Span> {
        Seq::new(self.chains@.len(), |c: int| self.chains@[c].span())
    }

    /// There is at least one region, and each region is divided by a chain
    /// without neighbouring free blocks.
    pub open spec fn wf(&self) -> bool {
        self@.len() > 0 && are_chains(self.spans(), self@)
    }

    /// Makes the manager of the given regions, of which there is at least
    /// one. Each region starts as one free block.
    pub fn new(regions: Vec<MemoryRegion>) -> (manager: MemoryManager)
        requires
            regions@.len() > 0,
        ensures
            manager.wf(),
            manager.spans() == Seq::new(regions@.len(), |c: int| regions@[c]@),
            manager@ == fresh_chains(manager.spans()),
    {
        let mut chains: Vec<TagChain> = Vec::new();
        let mut index: usize = 0;
        while index < regions.len()
            invariant
                index <= regions.len(),
                chains@.len() == index,
                forall|c: int|
                    0 <= c < index ==> {
                        &&& (#[trigger] chains@[c]).wf()
                        &&& chains@[c].span() == regions@[c]@
                        &&& chains@[c]@ == fresh_chain(regions@[c]@)
                    },
            decreases regions.len() - index,
        {
            let chain = TagChain::new(regions[index]);
            chains.push(chain);
            index += 1;
        }
        let manager = MemoryManager { chains: chains };
        proof {
            assert forall|c: int| 0 <= c < manager@.len() implies
                is_chain(#[trigger] manager.spans()[c], manager@[c]) && coalesced(manager@[c]) by {
                assert(manager.chains@[c].wf());
            }
        }
        manager
    }

    /// The number of managed regions.
    pub fn region_count(&self) -> (count: usize)
        ensures
            count == self@.len(),
    {
        self.chains.len()
    }

    /// The chain of the region at `index`.
    pub fn chain(&self, index: usize) -> (chain: &TagChain)
        requires
            index < self@.len(),
        ensures
            chain@ == self@[index as int],
            chain.span() == self.spans()[index as int],
    {
        &self.chains[index]
    }

    /// Allocates `size` bytes.
    ///
    /// The tags are scanned region by region, each from its base. The first
    /// free tag with more than `size` usable bytes is the only candidate: if a
    /// block of `size` bytes can be split off its tail, the block is handed
    /// out and the address of its usable area returned. Otherwise, and when
    /// there is no candidate, nothing is returned and no tag changes.
    pub fn malloc(&mut self, size: usize) -> (addr: Option<usize>)
        requires
            old(self).wf(),
        ensures
            final(self).wf(),
            final(self).spans() == old(self).spans(),
            final(self)@ == spec_malloc(old(self)@, size as int).0,
            as_int(addr) == spec_malloc(old(self)@, size as int).1,
            addr is Some <==> can_malloc(old(self)@, size as int),
            addr is None ==> final(self)@ == old(self)@,
            no_tag_fits(old(self)@, size as int) ==> addr is None,
            addr matches Some(a) ==> ({
                let (c, index) = candidate(old(self)@, size as int).unwrap();
                is_block_at(final(self)@[c], a as int, index + 1)
            }),
    {
        let mut index: usize = 0;
        while index < self.chains.len()
            invariant
                *self == *old(self),
                self.wf(),
                index <= self.chains.len(),
                candidate_from(self@, size as int, index as int)
                    == candidate(self@, size as int),
            decreases self.chains.len() - index,
        {
            assert(self.chains@[index as int].wf()) by {
                assert(self.spans()[index as int] == self.chains@[index as int].span());
            }
            match self.chains[index].find_free(size) {
                None => {},
                Some(at) => {
                    proof {
                        assert(candidate(self@, size as int) == Some((index as int, at as int)));
                    }
                    let addr = self.chains[index].allocate_at(at, size);
                    proof {
                        let tags = self.chains@[index as int]@;
                        assert(self.spans() =~= old(self).spans());
                        lemma_update_are_chains(old(self).spans(), old(self)@, index as int, tags);
                    }
                    return addr;
                },
            }
            index += 1;
        }
        None
    }

    /// Gives back the block whose usable area starts at `addr`.
    ///
    /// The block is marked free and coalesced with its free neighbours, first
    /// with the one before it, then with the one behind. An address at which
    /// no block starts changes nothing.
    pub fn free(&mut self, addr: usize)
        requires
            old(self).wf(),
        ensures
            final(self).wf(),
            final(self).spans() == old(self).spans(),
            final(self)@ == spec_free(old(self)@, addr as int),
            forall|c: int, i: int|
                0 <= c < old(self)@.len() && #[trigger] is_block_at(old(self)@[c], addr as int, i)
                    && no_block_before(old(self)@, addr as int, c)
                    ==> final(self)@ == old(self)@.update(c, release_at(old(self)@[c], i)),
    {
        proof {
            lemma_block_place(self.spans(), self@, addr as int);
        }
        let mut index: usize = 0;
        while index < self.chains.len()
            invariant
                *self == *old(self),
                self.wf(),
                index <= self.chains.len(),
                block_place_from(self@, addr as int, index as int)
                    == block_place(self@, addr as int),
            decreases self.chains.len() - index,
        {
            assert(self.chains@[index as int].wf()) by {
                assert(self.spans()[index as int] == self.chains@[index as int].span());
            }
            match self.chains[index].find_block(addr) {
                None => {},
                Some(at) => {
                    proof {
                        assert(block_place(self@, addr as int) == Some((index as int, at as int)));
                        lemma_block_place(self.spans(), self@, addr as int);
                    }
                    self.chains[index].release_at(at);
                    proof {
                        let tags = self.chains@[index as int]@;
                        assert(self.spans() =~= old(self).spans());
                        lemma_update_are_chains(old(self).spans(), old(self)@, index as int, tags);
                    }
                    return;
                },
            }
            index += 1;
        }
    }
}

} // verus!
