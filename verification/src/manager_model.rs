//! The mathematical model of the memory manager: one tag chain for each
//! region, in the order in which the regions were given.
//!
//! This module defines allocation and deallocation on such a sequence of
//! chains and proves what holds of them.

use crate::boundary_tag::{TagModel, HEADER_SIZE};
use crate::chain_model::{
    allocate_at, chain_allocate, chain_deallocate, coalesced, find_block, first_fit, fits,
    fresh_chain, is_block_at, is_chain, is_first_fit, lemma_allocate_then_deallocate,
    lemma_block_in_span, lemma_block_index_unique, lemma_carve_at_wf, lemma_find_block_from,
    lemma_first_fit,
    lemma_fresh_chain_wf, lemma_release_at_wf, lemma_sentinel_unique, lemma_size_conservation,
    lemma_two_blocks_in_either_order, release_at, total_free,
};
use crate::memory_region::Span;
use vstd::prelude::*;

verus! {

/// Every span is divided by a chain without neighbouring free blocks.
pub open spec fn are_chains(spans: Seq<Span>, chains: Seq<Seq<TagModel>>) -> bool {
    &&& spans.len() == chains.len()
    &&& forall|c: int|
        0 <= c < chains.len() ==> is_chain(#[trigger] spans[c], chains[c]) && coalesced(chains[c])
}

/// No two of the spans share a byte.
pub open spec fn disjoint(spans: Seq<Span>) -> bool {
    forall|c: int, d: int|
        0 <= c < spans.len() && 0 <= d < spans.len() && c != d
            ==> (#[trigger] spans[c]).end() <= (#[trigger] spans[d]).base
                || spans[d].end() <= spans[c].base
}

/// The chains of a manager that was just made for the given spans: one
/// undivided free block for each span.
pub open spec fn fresh_chains(spans: Seq<Span>) -> Seq<Seq<TagModel>> {
    Seq::new(spans.len(), |c: int| fresh_chain(spans[c]))
}

/// No tag of any chain fits a request for `size` bytes.
pub open spec fn no_tag_fits(chains: Seq<Seq<TagModel>>, size: int) -> bool {
    forall|c: int, i: int|
        0 <= c < chains.len() && 0 <= i < chains[c].len() ==> !fits(#[trigger] chains[c][i], size)
}

/// The place of the candidate for a request of `size` bytes among the chains
/// at or behind `from`: the index of the first chain with a tag that fits,
/// and in it the index of the first tag that does.
pub open spec fn candidate_from(
    chains: Seq<Seq<TagModel>>,
    size: int,
    from: int,
) -> Option<(int, int)>
    decreases chains.len() - from,
{
    if from < 0 || from >= chains.len() {
        None
    } else {
        match first_fit(chains[from], size) {
            Some(index) => Some((from, index)),
            None => candidate_from(chains, size, from + 1),
        }
    }
}

/// The place of the candidate for a request of `size` bytes: of the first
/// tag, over all chains in order, that is free and has more than `size`
/// usable bytes.
pub open spec fn candidate(chains: Seq<Seq<TagModel>>, size: int) -> Option<(int, int)> {
    candidate_from(chains, size, 0)
}

/// No chain before the one at `index` has a block whose usable area starts
/// at `addr`.
pub open spec fn no_block_before(chains: Seq<Seq<TagModel>>, addr: int, index: int) -> bool {
    forall|d: int, j: int| 0 <= d < index ==> !#[trigger] is_block_at(chains[d], addr, j)
}

/// The place of the block whose usable area starts at `addr` among the
/// chains at or behind `from`: the index of the first chain with such a
/// block, and in it the index of the block.
pub open spec fn block_place_from(
    chains: Seq<Seq<TagModel>>,
    addr: int,
    from: int,
) -> Option<(int, int)>
    decreases chains.len() - from,
{
    if from < 0 || from >= chains.len() {
        None
    } else {
        match find_block(chains[from], addr) {
            Some(index) => Some((from, index)),
            None => block_place_from(chains, addr, from + 1),
        }
    }
}

/// The place of the block whose usable area starts at `addr`, if there is
/// one.
pub open spec fn block_place(chains: Seq<Seq<TagModel>>, addr: int) -> Option<(int, int)> {
    block_place_from(chains, addr, 0)
}

/// An allocation of `size` bytes succeeds: there is a candidate, and a block
/// of `size` bytes can be split off it.
pub open spec fn can_malloc(chains: Seq<Seq<TagModel>>, size: int) -> bool {
    candidate(chains, size) matches Some((c, index)) && chains[c][index].can_divide(size)
}

/// What an allocation of `size` bytes does to the chains and what it returns.
///
/// The allocation is made from the candidate, as [`allocate_at`] says.
/// Without a candidate nothing changes and nothing is returned.
pub open spec fn spec_malloc(chains: Seq<Seq<TagModel>>, size: int) -> (
    Seq<Seq<TagModel>>,
    Option<int>,
) {
    match candidate(chains, size) {
        Some((c, index)) => (
            chains.update(c, allocate_at(chains[c], index, size).0),
            allocate_at(chains[c], index, size).1,
        ),
        None => (chains, None),
    }
}

/// What giving back the usable address `addr` does to the chains: the block
/// that starts there is released, as [`release_at`] says. Without such a
/// block nothing changes.
pub open spec fn spec_free(chains: Seq<Seq<TagModel>>, addr: int) -> Seq<Seq<TagModel>> {
    match block_place(chains, addr) {
        Some((c, index)) => chains.update(c, release_at(chains[c], index)),
        None => chains,
    }
}

/// The chains of a manager that was just made divide its regions.
pub proof fn lemma_fresh_chains_are_chains(spans: Seq<Span>)
    requires
        forall|c: int| 0 <= c < spans.len() ==> (#[trigger] spans[c]).is_valid(),
    ensures
        are_chains(spans, fresh_chains(spans)),
{
    let chains = fresh_chains(spans);
    assert forall|c: int| 0 <= c < chains.len() implies
        is_chain(#[trigger] spans[c], chains[c]) && coalesced(chains[c]) by {
        lemma_fresh_chain_wf(spans[c]);
    }
}

/// Putting a chain of the same region in the place of one of the chains
/// leaves every region divided by a chain.
pub proof fn lemma_update_are_chains(
    spans: Seq<Span>,
    chains: Seq<Seq<TagModel>>,
    index: int,
    tags: Seq<TagModel>,
)
    requires
        are_chains(spans, chains),
        0 <= index < chains.len(),
        is_chain(spans[index], tags),
        coalesced(tags),
    ensures
        are_chains(spans, chains.update(index, tags)),
{
    let after = chains.update(index, tags);
    assert forall|c: int| 0 <= c < after.len() implies
        is_chain(#[trigger] spans[c], after[c]) && coalesced(after[c]) by {
        if c == index {
            assert(after[c] == tags);
        } else {
            assert(is_chain(spans[c], chains[c]));
        }
    }
}

/// Size conservation and sentinel uniqueness in every region: the usable
/// bytes of all blocks of a region and one header for each of them add up to
/// the length of the region, and the last tag of the region, and no other, is
/// its sentinel and has no successor.
pub proof fn lemma_chains_account_for_regions(spans: Seq<Span>, chains: Seq<Seq<TagModel>>)
    requires
        are_chains(spans, chains),
    ensures
        forall|c: int|
            0 <= c < chains.len()
                ==> total_free(#[trigger] chains[c]) + HEADER_SIZE * chains[c].len()
                    == spans[c].length,
        forall|c: int, i: int|
            0 <= c < chains.len() && 0 <= i < chains[c].len()
                ==> ((#[trigger] chains[c][i]).is_sentinel <==> i == chains[c].len() - 1),
        forall|c: int|
            0 <= c < chains.len() ==> (#[trigger] chains[c]).last().next_tag_addr is None,
{
    assert forall|c: int| 0 <= c < chains.len() implies
        total_free(#[trigger] chains[c]) + HEADER_SIZE * chains[c].len() == spans[c].length by {
        lemma_size_conservation(spans[c], chains[c]);
    }
    assert forall|c: int, i: int| 0 <= c < chains.len() && 0 <= i < chains[c].len() implies
        ((#[trigger] chains[c][i]).is_sentinel <==> i == chains[c].len() - 1) by {
        lemma_sentinel_unique(spans[c], chains[c]);
    }
    assert forall|c: int| 0 <= c < chains.len() implies
        (#[trigger] chains[c]).last().next_tag_addr is None by {
        lemma_sentinel_unique(spans[c], chains[c]);
    }
}

/// From chain `from` on, [`candidate_from`] finds the first chain with a tag
/// that fits and the first such tag in it, and nothing only if no tag of
/// these chains fits.
pub proof fn lemma_candidate_from(chains: Seq<Seq<TagModel>>, size: int, from: int)
    requires
        0 <= from <= chains.len(),
    ensures
        match candidate_from(chains, size, from) {
            Some((c, index)) => {
                &&& from <= c < chains.len()
                &&& is_first_fit(chains[c], size, index)
                &&& forall|d: int, j: int|
                    from <= d < c && 0 <= j < chains[d].len()
                        ==> !fits(#[trigger] chains[d][j], size)
            },
            None => forall|d: int, j: int|
                from <= d < chains.len() && 0 <= j < chains[d].len()
                    ==> !fits(#[trigger] chains[d][j], size),
        },
    decreases chains.len() - from,
{
    if from < chains.len() {
        lemma_first_fit(chains[from], size);
        if first_fit(chains[from], size) is None {
            lemma_candidate_from(chains, size, from + 1);
        }
    }
}

/// The candidate is the first tag, over all chains in order, that fits the
/// request; there is none only if no tag fits.
pub proof fn lemma_candidate(chains: Seq<Seq<TagModel>>, size: int)
    ensures
        match candidate(chains, size) {
            Some((c, index)) => {
                &&& 0 <= c < chains.len()
                &&& is_first_fit(chains[c], size, index)
                &&& forall|d: int, j: int|
                    0 <= d < c && 0 <= j < chains[d].len()
                        ==> !fits(#[trigger] chains[d][j], size)
            },
            None => no_tag_fits(chains, size),
        },
{
    lemma_candidate_from(chains, size, 0);
}

/// From chain `from` on, [`block_place_from`] finds the first chain with a
/// block at `addr` and that block, and nothing only if none of these chains
/// has such a block.
pub proof fn lemma_block_place_from(chains: Seq<Seq<TagModel>>, addr: int, from: int)
    requires
        0 <= from <= chains.len(),
    ensures
        match block_place_from(chains, addr, from) {
            Some((c, index)) => {
                &&& from <= c < chains.len()
                &&& find_block(chains[c], addr) == Some(index)
                &&& is_block_at(chains[c], addr, index)
                &&& forall|d: int| from <= d < c ==> find_block(#[trigger] chains[d], addr) is None
            },
            None => forall|d: int|
                from <= d < chains.len() ==> find_block(#[trigger] chains[d], addr) is None,
        },
    decreases chains.len() - from,
{
    if from < chains.len() {
        lemma_find_block_from(chains[from], addr, 0);
        if find_block(chains[from], addr) is None {
            lemma_block_place_from(chains, addr, from + 1);
        }
    }
}

/// In chains that divide their regions, the first chain with a block at
/// `addr` and the index of that block are the place that [`block_place`]
/// names.
pub proof fn lemma_block_place(spans: Seq<Span>, chains: Seq<Seq<TagModel>>, addr: int)
    requires
        are_chains(spans, chains),
    ensures
        forall|c: int, i: int|
            0 <= c < chains.len() && #[trigger] is_block_at(chains[c], addr, i)
                && no_block_before(chains, addr, c)
                ==> block_place(chains, addr) == Some((c, i)),
{
    lemma_block_place_from(chains, addr, 0);
    assert forall|c: int, i: int|
        0 <= c < chains.len() && #[trigger] is_block_at(chains[c], addr, i)
            && no_block_before(chains, addr, c) implies
        block_place(chains, addr) == Some((c, i)) by {
        lemma_block_index_unique(spans[c], chains[c], addr, i);
    }
}

/// An allocation, whether it succeeds or not, leaves every region divided by
/// a chain without neighbouring free blocks.
pub proof fn lemma_malloc_keeps_chains(spans: Seq<Span>, chains: Seq<Seq<TagModel>>, size: int)
    requires
        are_chains(spans, chains),
        0 <= size,
    ensures
        are_chains(spans, spec_malloc(chains, size).0),
{
    lemma_candidate(chains, size);
    if let Some((c, index)) = candidate(chains, size) {
        if chains[c][index].can_divide(size) {
            lemma_carve_at_wf(spans[c], chains[c], index, size);
        }
        lemma_update_are_chains(spans, chains, c, allocate_at(chains[c], index, size).0);
    }
}

/// A deallocation, whatever the address, leaves every region divided by a
/// chain without neighbouring free blocks.
pub proof fn lemma_free_keeps_chains(spans: Seq<Span>, chains: Seq<Seq<TagModel>>, addr: int)
    requires
        are_chains(spans, chains),
    ensures
        are_chains(spans, spec_free(chains, addr)),
{
    lemma_block_place_from(chains, addr, 0);
    if let Some((c, index)) = block_place(chains, addr) {
        lemma_release_at_wf(spans[c], chains[c], index);
        lemma_update_are_chains(spans, chains, c, release_at(chains[c], index));
    }
}

/// What a successful allocation hands out. The returned address is the
/// usable area of a new block of exactly `size` bytes that is marked as
/// handed out. The block was carved off the end of the candidate, a block
/// that was free before and keeps at least one usable byte, and it lies
/// within the region of that block. No other chain changes.
pub proof fn lemma_malloc_block(spans: Seq<Span>, chains: Seq<Seq<TagModel>>, size: int)
    requires
        are_chains(spans, chains),
        0 <= size,
        can_malloc(chains, size),
    ensures
        ({
            let (c, i) = candidate(chains, size).unwrap();
            let after = spec_malloc(chains, size).0;
            let addr = spec_malloc(chains, size).1.unwrap();
            &&& 0 <= c < chains.len()
            &&& 0 <= i < chains[c].len()
            &&& !chains[c][i].is_alloc
            &&& chains[c][i].addr_free_area() < addr - HEADER_SIZE
            &&& addr + size == chains[c][i].end()
            &&& spans[c].base <= chains[c][i].addr
            &&& chains[c][i].end() <= spans[c].end()
            &&& after == chains.update(c, after[c])
            &&& after[c].len() == chains[c].len() + 1
            &&& is_block_at(after[c], addr, i + 1)
            &&& after[c][i + 1].is_alloc
            &&& after[c][i + 1].free_area_size == size
        }),
{
    let (c, i) = candidate(chains, size).unwrap();
    lemma_candidate(chains, size);
    lemma_carve_at_wf(spans[c], chains[c], i, size);
    lemma_block_in_span(spans[c], chains[c], i);
}

/// With a single region the manager allocates and deallocates as the chain
/// of that region does.
pub proof fn lemma_single_region(tags: Seq<TagModel>, size: int, addr: int)
    ensures
        spec_malloc(seq![tags], size) == (
            seq![chain_allocate(tags, size).0],
            chain_allocate(tags, size).1,
        ),
        spec_free(seq![tags], addr) == seq![chain_deallocate(tags, addr)],
{
    let chains = seq![tags];
    assert(candidate_from(chains, size, 1) is None);
    assert(block_place_from(chains, addr, 1) is None);
    assert(chains.update(0, chain_allocate(tags, size).0) =~= seq![chain_allocate(tags, size).0]);
    assert(chains.update(0, chain_deallocate(tags, addr)) =~= seq![chain_deallocate(tags, addr)]);
}

/// Giving back what was just allocated restores the manager's state: over
/// regions that share no byte, a successful allocation followed by the
/// deallocation of the returned address leaves every chain as it was.
pub proof fn lemma_malloc_then_free(spans: Seq<Span>, chains: Seq<Seq<TagModel>>, size: int)
    requires
        are_chains(spans, chains),
        disjoint(spans),
        0 <= size,
        can_malloc(chains, size),
    ensures
        spec_free(spec_malloc(chains, size).0, spec_malloc(chains, size).1.unwrap()) == chains,
{
    let (c, index) = candidate(chains, size).unwrap();
    let (after, found) = spec_malloc(chains, size);
    let addr = found.unwrap();
    lemma_candidate(chains, size);
    lemma_carve_at_wf(spans[c], chains[c], index, size);
    // The new block lies in its region, so no earlier chain has a block at
    // its address, ...
    assert(is_block_at(after[c], addr, index + 1));
    lemma_block_in_span(spans[c], after[c], index + 1);
    lemma_block_place_from(after, addr, 0);
    if let Some((d, other)) = block_place(after, addr) {
        if d < c {
            lemma_block_in_span(spans[d], chains[d], other);
        }
    }
    // ... and its own chain undoes the allocation.
    lemma_first_fit(chains[c], size);
    lemma_allocate_then_deallocate(spans[c], chains[c], size);
    assert(after.update(c, chains[c]) =~= chains);
}

/// Two blocks of equal size, allocated one after the other by the manager of
/// a single undivided region and given back in either order, leave the region
/// undivided again: one free sentinel tag with all the usable bytes it had at
/// the start.
pub proof fn lemma_two_blocks_freed_in_either_order(span: Span, size: int)
    requires
        span.is_valid(),
        0 <= size,
        can_malloc(fresh_chains(seq![span]), size),
        can_malloc(spec_malloc(fresh_chains(seq![span]), size).0, size),
    ensures
        ({
            let fresh = fresh_chains(seq![span]);
            let (one, first) = spec_malloc(fresh, size);
            let (two, second) = spec_malloc(one, size);
            let a = first.unwrap();
            let b = second.unwrap();
            &&& spec_free(spec_free(two, a), b) == fresh
            &&& spec_free(spec_free(two, b), a) == fresh
            &&& fresh.len() == 1
            &&& fresh[0].len() == 1
            &&& fresh[0][0].free_area_size == span.length - HEADER_SIZE
            &&& fresh[0][0].is_sentinel
            &&& !fresh[0][0].is_alloc
        }),
{
    let start = fresh_chain(span);
    assert(fresh_chains(seq![span]) =~= seq![start]);
    let (one, first) = chain_allocate(start, size);
    let (two, second) = chain_allocate(one, size);
    let a = first.unwrap();
    let b = second.unwrap();
    lemma_single_region(start, size, a);
    lemma_single_region(one, size, a);
    lemma_two_blocks_in_either_order(span, size);
    lemma_single_region(two, size, a);
    lemma_single_region(chain_deallocate(two, a), size, b);
    lemma_single_region(two, size, b);
    lemma_single_region(chain_deallocate(two, b), size, a);
}

} // verus!
