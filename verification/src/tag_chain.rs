//! The chain of boundary tags that divides one region into blocks.
//!
//! The tags of a region are stored in address order. Every operation is
//! specified by its counterpart on the sequence of tag models in
//! [`crate::chain_model`].

use crate::boundary_tag::{as_int, lemma_divide_conserves, BoundaryTag, TagModel, HEADER_SIZE};
use crate::chain_model::{
    allocate_at, can_allocate, carve_at, chain_allocate, chain_deallocate, coalesced,
    find_block, find_block_from, first_fit, first_fit_from, fits, fresh_chain, is_block_at,
    is_chain, is_first_fit, lemma_block_index_unique, lemma_carve_at_wf, lemma_first_fit,
    lemma_fresh_chain_wf, lemma_mark_is_chain, lemma_merge_at_is_chain,
    lemma_neighbours_by_address, lemma_release_at_wf, mark, merge_at, next_tag_of, predecessor,
    prev_tag_of, release_at, successor, tag_at,
};
use crate::memory_region::{MemoryRegion, Span};
use vstd::prelude::*;

verus! {

/// The model of a tag that may be missing.
pub open spec fn tag_model(tag: Option<BoundaryTag>) -> Option<TagModel> {
    match tag {
        Some(t) => Some(t@),
        None => None,
    }
}

/// The chain of tags of one region, in address order.
#[derive(Debug)]
pub struct TagChain {
    region: MemoryRegion,
    tags: Vec<BoundaryTag>,
}

impl View for TagChain {
    type V = Seq<TagModel>;

    closed spec fn view(&self) -> Seq<TagModel> {
        Seq::new(self.tags@.len(), |i: int| self.tags@[i]@)
    }
}

impl TagChain {
    /// The span of memory that the chain divides.
    pub closed spec fn span(&self) -> Span {
        self.region@
    }

    /// The tags form a chain over the region, and no two neighbouring blocks
    /// are both free.
    pub open spec fn wf(&self) -> bool {
        is_chain(self.span(), self@) && coalesced(self@)
    }

    /// Starts the chain of a region: one free tag that covers all of it.
    pub fn new(region: MemoryRegion) -> (chain: TagChain)
        ensures
            chain.wf(),
            chain.span() == region@,
            chain@ == fresh_chain(region@),
    {
        proof {
            use_type_invariant(&region);
        }
        let tag = BoundaryTag::from_memory(region.addr(), region.size());
        let mut tags: Vec<BoundaryTag> = Vec::new();
        tags.push(tag);
        let chain = TagChain { region: region, tags: tags };
        proof {
            lemma_fresh_chain_wf(region@);
        }
        chain
    }

    /// The region that the chain divides.
    pub fn region(&self) -> (region: MemoryRegion)
        ensures
            region@ == self.span(),
    {
        self.region
    }

    /// The number of tags, which is the number of blocks.
    pub fn len(&self) -> (len: usize)
        ensures
            len == self@.len(),
    {
        self.tags.len()
    }

    /// The tag at `index`, counted from the base of the region.
    pub fn tag(&self, index: usize) -> (tag: BoundaryTag)
        requires
            index < self@.len(),
        ensures
            tag@ == self@[index as int],
    {
        self.tags[index]
    }

    /// Finds the first tag that fits a request for `size` bytes: the first
    /// that is free and has more than `size` usable bytes.
    pub fn find_free(&self, size: usize) -> (found: Option<usize>)
        ensures
            as_int(found) == first_fit(self@, size as int),
            found matches Some(index) ==> is_first_fit(self@, size as int, index as int),
    {
        let mut index: usize = 0;
        while index < self.tags.len()
            invariant
                index <= self.tags.len(),
                first_fit_from(self@, size as int, index as int) == first_fit(self@, size as int),
            decreases self.tags.len() - index,
        {
            let tag = &self.tags[index];
            if !tag.is_alloc() && tag.free_area_size() > size {
                proof {
                    lemma_first_fit(self@, size as int);
                }
                return Some(index);
            }
            index += 1;
        }
        None
    }

    /// Finds the block whose usable area starts at `addr`.
    pub fn find_block(&self, addr: usize) -> (found: Option<usize>)
        ensures
            as_int(found) == find_block(self@, addr as int),
            found matches Some(index) ==> is_block_at(self@, addr as int, index as int),
    {
        let mut index: usize = 0;
        while index < self.tags.len()
            invariant
                index <= self.tags.len(),
                find_block_from(self@, addr as int, index as int)
                    == find_block(self@, addr as int),
            decreases self.tags.len() - index,
        {
            let tag = &self.tags[index];
            if tag.addr_free_area() == addr {
                return Some(index);
            }
            index += 1;
        }
        None
    }

    /// Looks up the tag whose header lies at `addr`.
    pub fn tag_at(&self, addr: usize) -> (found: Option<BoundaryTag>)
        ensures
            tag_model(found) == tag_at(self@, addr as int),
    {
        let mut index: usize = 0;
        while index < self.tags.len()
            invariant
                index <= self.tags.len(),
                find_block_from(self@, addr + HEADER_SIZE, index as int)
                    == find_block(self@, addr + HEADER_SIZE),
            decreases self.tags.len() - index,
        {
            let tag = self.tags[index];
            if tag.addr() == addr {
                return Some(tag);
            }
            index += 1;
        }
        None
    }

    /// Lets the tag at `index` take in its successor, and points the tag
    /// behind the two, if there is one, back at the merged tag.
    fn merge_at(&mut self, index: usize)
        requires
            is_chain(old(self).span(), old(self)@),
            index + 1 < old(self)@.len(),
        ensures
            final(self).span() == old(self).span(),
            final(self)@ == merge_at(old(self)@, index as int),
    {
        proof {
            assert(self@.len() == self.tags.len());
            assert(self@[index as int].precedes(self@[index + 1]));
        }
        let merged = BoundaryTag::merge(self.tags[index], self.tags[index + 1]);
        self.tags[index] = merged;
        self.tags.remove(index + 1);
        if index + 1 < self.tags.len() {
            proof {
                assert(old(self)@[index + 1].precedes(old(self)@[index + 2]));
            }
            self.tags[index + 1].set_prev_tag_addr(Some(merged.addr()));
        }
    }

    /// Splits a block of `size` usable bytes off the free tag at `index` and
    /// hands it out.
    ///
    /// Returns the address of the new block's usable area. Where the split
    /// would not leave the tag a usable byte, nothing changes and nothing is
    /// returned.
    pub fn allocate_at(&mut self, index: usize, size: usize) -> (addr: Option<usize>)
        requires
            old(self).wf(),
            index < old(self)@.len(),
            !old(self)@[index as int].is_alloc,
        ensures
            final(self).wf(),
            final(self).span() == old(self).span(),
            final(self)@ == allocate_at(old(self)@, index as int, size as int).0,
            as_int(addr) == allocate_at(old(self)@, index as int, size as int).1,
            addr is Some <==> old(self)@[index as int].can_divide(size as int),
            addr matches Some(a) ==> is_block_at(final(self)@, a as int, index + 1),
    {
        proof {
            assert(self@.len() == self.tags.len());
        }
        let (front, carved) = BoundaryTag::divide(self.tags[index], size);
        match carved {
            None => None,
            Some(mut tail) => {
                proof {
                    lemma_divide_conserves(self@[index as int], size as int);
                }
                tail.set_alloc(true);
                self.tags[index] = front;
                self.tags.insert(index + 1, tail);
                let len = self.tags.len();
                if index + 2 < len {
                    proof {
                        assert(old(self)@[index as int].precedes(old(self)@[index + 1]));
                    }
                    self.tags[index + 2].set_prev_tag_addr(Some(tail.addr()));
                }
                proof {
                    assert(self@ =~= carve_at(old(self)@, index as int, size as int));
                    lemma_carve_at_wf(old(self).span(), old(self)@, index as int, size as int);
                }
                Some(tail.addr_free_area())
            },
        }
    }

    /// Gives back the block at `index`: marks it free, lets the block before
    /// it take it in if that is free, and lets the resulting block take in the
    /// one behind it if that is free.
    pub fn release_at(&mut self, index: usize)
        requires
            old(self).wf(),
            index < old(self)@.len(),
        ensures
            final(self).wf(),
            final(self).span() == old(self).span(),
            final(self)@ == release_at(old(self)@, index as int),
    {
        let mut at = index;
        self.tags[at].set_alloc(false);
        proof {
            assert(self@ =~= mark(old(self)@, index as int, false));
            lemma_mark_is_chain(old(self).span(), old(self)@, index as int, false);
        }
        if at > 0 && !self.tags[at - 1].is_alloc() {
            proof {
                lemma_merge_at_is_chain(self.span(), self@, at - 1);
            }
            self.merge_at(at - 1);
            at = at - 1;
        }
        let len = self.tags.len();
        if at + 1 < len && !self.tags[at + 1].is_alloc() {
            self.merge_at(at);
        }
        proof {
            lemma_release_at_wf(old(self).span(), old(self)@, index as int);
        }
    }

    /// Allocates `size` bytes from this chain.
    ///
    /// Only the first free tag with more than `size` usable bytes is tried.
    /// On success the address of the new block's usable area is returned;
    /// otherwise the chain is unchanged.
    pub fn allocate(&mut self, size: usize) -> (addr: Option<usize>)
        requires
            old(self).wf(),
        ensures
            final(self).wf(),
            final(self).span() == old(self).span(),
            final(self)@ == chain_allocate(old(self)@, size as int).0,
            as_int(addr) == chain_allocate(old(self)@, size as int).1,
            addr is Some <==> can_allocate(old(self)@, size as int),
            addr is None ==> final(self)@ == old(self)@,
            (forall|i: int|
                0 <= i < old(self)@.len() ==> !fits(#[trigger] old(self)@[i], size as int))
                ==> addr is None,
            addr matches Some(a) ==> ({
                let index = first_fit(old(self)@, size as int).unwrap();
                is_block_at(final(self)@, a as int, index + 1)
            }),
    {
        match self.find_free(size) {
            None => None,
            Some(index) => self.allocate_at(index, size),
        }
    }

    /// Gives back the block whose usable area starts at `addr`.
    ///
    /// Returns whether the chain has such a block; if it has none, the chain
    /// is unchanged.
    pub fn deallocate(&mut self, addr: usize) -> (found: bool)
        requires
            old(self).wf(),
        ensures
            final(self).wf(),
            final(self).span() == old(self).span(),
            final(self)@ == chain_deallocate(old(self)@, addr as int),
            found == (find_block(old(self)@, addr as int) is Some),
            forall|i: int|
                #[trigger] is_block_at(old(self)@, addr as int, i)
                    ==> found && final(self)@ == release_at(old(self)@, i),
    {
        proof {
            assert forall|i: int| #[trigger] is_block_at(self@, addr as int, i) implies
                find_block(self@, addr as int) == Some(i) by {
                lemma_block_index_unique(self.span(), self@, addr as int, i);
            }
        }
        match self.find_block(addr) {
            None => false,
            Some(index) => {
                self.release_at(index);
                true
            },
        }
    }
}

impl BoundaryTag {
    /// Looks up the tag that `tag` names as its successor.
    ///
    /// For a tag of a well-formed chain this is the tag that stands behind
    /// it, and nothing for the last one.
    pub fn next_tag_of(tag: &BoundaryTag, chain: &TagChain) -> (next: Option<BoundaryTag>)
        ensures
            tag_model(next) == next_tag_of(chain@, tag@),
            chain.wf() ==> forall|i: int|
                0 <= i < chain@.len() && #[trigger] chain@[i] == tag@
                    ==> tag_model(next) == successor(chain@, i),
    {
        proof {
            if chain.wf() {
                assert forall|i: int| 0 <= i < chain@.len() && #[trigger] chain@[i] == tag@ implies
                    next_tag_of(chain@, tag@) == successor(chain@, i) by {
                    lemma_neighbours_by_address(chain.span(), chain@, i);
                }
            }
        }
        match tag.next_tag_addr() {
            Some(addr) => chain.tag_at(addr),
            None => None,
        }
    }

    /// Looks up the tag that `tag` names as its predecessor.
    ///
    /// For a tag of a well-formed chain this is the tag that stands before
    /// it, and nothing for the first one.
    pub fn prev_tag_of(tag: &BoundaryTag, chain: &TagChain) -> (prev: Option<BoundaryTag>)
        ensures
            tag_model(prev) == prev_tag_of(chain@, tag@),
            chain.wf() ==> forall|i: int|
                0 <= i < chain@.len() && #[trigger] chain@[i] == tag@
                    ==> tag_model(prev) == predecessor(chain@, i),
    {
        proof {
            if chain.wf() {
                assert forall|i: int| 0 <= i < chain@.len() && #[trigger] chain@[i] == tag@ implies
                    prev_tag_of(chain@, tag@) == predecessor(chain@, i) by {
                    lemma_neighbours_by_address(chain.span(), chain@, i);
                }
            }
        }
        match tag.prev_tag_addr() {
            Some(addr) => chain.tag_at(addr),
            None => None,
        }
    }
}

} // verus!
