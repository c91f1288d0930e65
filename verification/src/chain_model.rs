//! The mathematical model of a tag chain: the sequence of the tags of one
//! region in address order.
//!
//! This module states what makes such a sequence a chain, defines splitting,
//! coalescing, allocation and deallocation on it, and proves what holds of
//! them: the chain invariant is kept, no byte is lost, there is one sentinel,
//! and giving back what was allocated restores the chain.

use crate::boundary_tag::{
    lemma_divide_conserves, lemma_divide_then_merge, lemma_from_memory_wf,
    lemma_merge_conserves, TagModel, HEADER_SIZE,
};
use crate::memory_region::Span;
use vstd::prelude::*;

verus! {

/// The tags divide the span into a chain of blocks: the first tag lies at the
/// base and has no predecessor, each further tag starts where the one before
/// it ends and the two name each other, and the last tag is the sentinel and
/// ends where the span ends.
pub open spec fn is_chain(span: Span, tags: Seq<TagModel>) -> bool {
    &&& span.is_valid()
    &&& tags.len() > 0
    &&& tags.first().addr == span.base
    &&& tags.first().prev_tag_addr is None
    &&& tags.last().is_sentinel
    &&& tags.last().end() == span.end()
    &&& forall|i: int| 0 <= i < tags.len() ==> (#[trigger] tags[i]).wf()
    &&& forall|i: int, j: int|
        0 <= i && j == i + 1 && j < tags.len()
            ==> (#[trigger] tags[i]).precedes(#[trigger] tags[j])
}

/// No two neighbouring blocks are both free.
pub open spec fn coalesced(tags: Seq<TagModel>) -> bool {
    forall|i: int, j: int|
        0 <= i && j == i + 1 && j < tags.len()
            ==> (#[trigger] tags[i]).is_alloc || (#[trigger] tags[j]).is_alloc
}

/// The usable bytes of all blocks together.
pub open spec fn total_free(tags: Seq<TagModel>) -> int
    decreases tags.len(),
{
    if tags.len() == 0 {
        0
    } else {
        total_free(tags.drop_last()) + tags.last().free_area_size
    }
}

/// The chain of a region that was not divided yet.
pub open spec fn fresh_chain(span: Span) -> Seq<TagModel> {
    seq![TagModel::from_memory(span.base, span.length)]
}

/// The tags with the backward link of the tag at `index`, if there is one,
/// pointed at `prev`.
pub open spec fn repoint(tags: Seq<TagModel>, index: int, prev: int) -> Seq<TagModel> {
    if 0 <= index < tags.len() {
        tags.update(index, TagModel { prev_tag_addr: Some(prev), ..tags[index] })
    } else {
        tags
    }
}

/// The tags with the allocation flag of the tag at `index` set to `is_alloc`.
pub open spec fn mark(tags: Seq<TagModel>, index: int, is_alloc: bool) -> Seq<TagModel> {
    tags.update(index, TagModel { is_alloc: is_alloc, ..tags[index] })
}

/// The chain after a block of `request_size` usable bytes was split off the
/// tag at `index`: the shrunk tag stays in place, the new tag follows it, and
/// the tag behind the new one, if any, names the new one as its predecessor.
pub open spec fn split_at(tags: Seq<TagModel>, index: int, request_size: int) -> Seq<TagModel> {
    let front = tags[index].divide_front(request_size);
    let tail = tags[index].divide_tail(request_size);
    repoint(tags.update(index, front).insert(index + 1, tail), index + 2, tail.addr)
}

/// The chain after the tag at `index` took in its successor: the merged tag
/// stays in place, the successor is gone, and the tag behind it, if any, names
/// the merged tag as its predecessor.
pub open spec fn merge_at(tags: Seq<TagModel>, index: int) -> Seq<TagModel> {
    let merged = tags[index].merge(tags[index + 1]);
    repoint(tags.update(index, merged).remove(index + 1), index + 1, merged.addr)
}

/// The chain after a block of `request_size` usable bytes was split off the
/// tag at `index` and handed out.
pub open spec fn carve_at(tags: Seq<TagModel>, index: int, request_size: int) -> Seq<TagModel> {
    mark(split_at(tags, index, request_size), index + 1, true)
}

/// The chain after the tag at `index` took in its successor if that is free,
/// and the unchanged chain if it is not or if there is no successor.
pub open spec fn join_next(tags: Seq<TagModel>, index: int) -> Seq<TagModel> {
    if index + 1 < tags.len() && !tags[index + 1].is_alloc {
        merge_at(tags, index)
    } else {
        tags
    }
}

/// The chain after the block at `index` was given back: it is marked free,
/// taken in by its predecessor if that is free, and the resulting block takes
/// in its successor if that is free.
pub open spec fn release_at(tags: Seq<TagModel>, index: int) -> Seq<TagModel> {
    let freed = mark(tags, index, false);
    if index > 0 && !freed[index - 1].is_alloc {
        join_next(merge_at(freed, index - 1), index - 1)
    } else {
        join_next(freed, index)
    }
}

/// A request for `size` bytes considers a tag only if it is free and has more
/// than `size` usable bytes.
pub open spec fn fits(tag: TagModel, size: int) -> bool {
    !tag.is_alloc && tag.free_area_size > size
}

/// The index of the first tag at or behind `from` that fits a request for
/// `size` bytes, if there is one.
pub open spec fn first_fit_from(tags: Seq<TagModel>, size: int, from: int) -> Option<int>
    decreases tags.len() - from,
{
    if from < 0 || from >= tags.len() {
        None
    } else if fits(tags[from], size) {
        Some(from)
    } else {
        first_fit_from(tags, size, from + 1)
    }
}

/// The index of the first tag of the chain that fits a request for `size`
/// bytes, if there is one.
pub open spec fn first_fit(tags: Seq<TagModel>, size: int) -> Option<int> {
    first_fit_from(tags, size, 0)
}

/// The tag at `index` fits a request for `size` bytes, and no tag before it
/// does.
pub open spec fn is_first_fit(tags: Seq<TagModel>, size: int, index: int) -> bool {
    &&& 0 <= index < tags.len()
    &&& fits(tags[index], size)
    &&& forall|j: int| 0 <= j < index ==> !fits(#[trigger] tags[j], size)
}

/// The block at `index` has its usable area at `addr`.
pub open spec fn is_block_at(tags: Seq<TagModel>, addr: int, index: int) -> bool {
    0 <= index < tags.len() && tags[index].addr_free_area() == addr
}

/// The index of the first block at or behind `from` whose usable area starts
/// at `addr`, if there is one.
pub open spec fn find_block_from(tags: Seq<TagModel>, addr: int, from: int) -> Option<int>
    decreases tags.len() - from,
{
    if from < 0 || from >= tags.len() {
        None
    } else if tags[from].addr_free_area() == addr {
        Some(from)
    } else {
        find_block_from(tags, addr, from + 1)
    }
}

/// The index of the block whose usable area starts at `addr`, if the chain
/// has one.
pub open spec fn find_block(tags: Seq<TagModel>, addr: int) -> Option<int> {
    find_block_from(tags, addr, 0)
}

/// The tag whose header lies at `addr`, if the chain has one: the tag of the
/// block whose usable area starts one header behind `addr`.
pub open spec fn tag_at(tags: Seq<TagModel>, addr: int) -> Option<TagModel> {
    match find_block(tags, addr + HEADER_SIZE) {
        Some(index) => Some(tags[index]),
        None => None,
    }
}

/// The tag that stands behind the tag at `index`, if there is one.
pub open spec fn successor(tags: Seq<TagModel>, index: int) -> Option<TagModel> {
    if index + 1 < tags.len() {
        Some(tags[index + 1])
    } else {
        None
    }
}

/// The tag that stands before the tag at `index`, if there is one.
pub open spec fn predecessor(tags: Seq<TagModel>, index: int) -> Option<TagModel> {
    if index > 0 {
        Some(tags[index - 1])
    } else {
        None
    }
}

/// The tag that lies at the address which `tag` names as its successor, if it
/// names one and the chain has a tag there.
pub open spec fn next_tag_of(tags: Seq<TagModel>, tag: TagModel) -> Option<TagModel> {
    match tag.next_tag_addr {
        Some(addr) => tag_at(tags, addr),
        None => None,
    }
}

/// The tag that lies at the address which `tag` names as its predecessor, if
/// it names one and the chain has a tag there.
pub open spec fn prev_tag_of(tags: Seq<TagModel>, tag: TagModel) -> Option<TagModel> {
    match tag.prev_tag_addr {
        Some(addr) => tag_at(tags, addr),
        None => None,
    }
}

/// What an attempt to hand out `size` bytes from the tag at `index` does to a
/// chain and what it returns.
///
/// If a block of `size` bytes can be split off the tag, the chain changes as
/// [`carve_at`] says and the address of the new block's usable area is
/// returned. Otherwise the chain stays as it is and nothing is returned.
pub open spec fn allocate_at(tags: Seq<TagModel>, index: int, size: int) -> (
    Seq<TagModel>,
    Option<int>,
) {
    if tags[index].can_divide(size) {
        (carve_at(tags, index, size), Some(tags[index].divide_tail(size).addr_free_area()))
    } else {
        (tags, None)
    }
}

/// An allocation of `size` bytes from the chain succeeds: some tag fits, and a
/// block of `size` bytes can be split off the first that does.
pub open spec fn can_allocate(tags: Seq<TagModel>, size: int) -> bool {
    first_fit(tags, size) matches Some(index) && tags[index].can_divide(size)
}

/// What an allocation of `size` bytes does to a chain and what it returns.
///
/// The first tag that fits is the only candidate: the allocation is made
/// from it as [`allocate_at`] says. Without a candidate the chain stays as it
/// is and nothing is returned.
pub open spec fn chain_allocate(tags: Seq<TagModel>, size: int) -> (Seq<TagModel>, Option<int>) {
    match first_fit(tags, size) {
        Some(index) => allocate_at(tags, index, size),
        None => (tags, None),
    }
}

/// What giving back the usable address `addr` does to a chain: the block that
/// starts there is released as [`release_at`] says; a chain without such a
/// block stays as it is.
pub open spec fn chain_deallocate(tags: Seq<TagModel>, addr: int) -> Seq<TagModel> {
    match find_block(tags, addr) {
        Some(index) => release_at(tags, index),
        None => tags,
    }
}

/// The chain of an undivided valid region is a chain without neighbouring
/// free blocks.
pub proof fn lemma_fresh_chain_wf(span: Span)
    requires
        span.is_valid(),
    ensures
        is_chain(span, fresh_chain(span)),
        coalesced(fresh_chain(span)),
{
    lemma_from_memory_wf(span.base, span.length);
}

/// In a chain every block ends before or where each later block starts.
pub proof fn lemma_chain_ordered(span: Span, tags: Seq<TagModel>, i: int, j: int)
    requires
        is_chain(span, tags),
        0 <= i < j < tags.len(),
    ensures
        tags[i].end() <= tags[j].addr,
        tags[i].addr < tags[j].addr,
    decreases j - i,
{
    if i + 1 < j {
        lemma_chain_ordered(span, tags, i, j - 1);
    }
}

/// In a chain every block lies within the span: its header starts at or
/// behind the base, and its usable area ends at or before the end.
pub proof fn lemma_block_in_span(span: Span, tags: Seq<TagModel>, index: int)
    requires
        is_chain(span, tags),
        0 <= index < tags.len(),
    ensures
        span.base <= tags[index].addr,
        tags[index].addr_free_area() <= tags[index].end() <= span.end(),
{
    if 0 < index {
        lemma_chain_ordered(span, tags, 0, index);
    }
    if index < tags.len() - 1 {
        lemma_chain_ordered(span, tags, index, tags.len() - 1);
    }
}

/// In a chain the usable bytes and the headers of the first `count` blocks
/// fill the span up to the end of the last of these blocks.
proof fn lemma_prefix_size(span: Span, tags: Seq<TagModel>, count: int)
    requires
        is_chain(span, tags),
        1 <= count <= tags.len(),
    ensures
        total_free(tags.subrange(0, count)) + HEADER_SIZE * count
            == tags[count - 1].end() - span.base,
    decreases count,
{
    let prefix = tags.subrange(0, count);
    if count == 1 {
        assert(total_free(prefix.drop_last()) == 0);
    } else {
        lemma_prefix_size(span, tags, count - 1);
        assert(prefix.drop_last() =~= tags.subrange(0, count - 1));
    }
}

/// Size conservation: in a chain the usable bytes of all blocks and one
/// header for each block add up to the length of the region.
pub proof fn lemma_size_conservation(span: Span, tags: Seq<TagModel>)
    requires
        is_chain(span, tags),
    ensures
        total_free(tags) + HEADER_SIZE * tags.len() == span.length,
{
    lemma_prefix_size(span, tags, tags.len() as int);
    assert(tags.subrange(0, tags.len() as int) =~= tags);
}

/// Sentinel uniqueness: in a chain the last tag, and no other, is marked as
/// the sentinel, and it has no successor.
pub proof fn lemma_sentinel_unique(span: Span, tags: Seq<TagModel>)
    requires
        is_chain(span, tags),
    ensures
        forall|i: int|
            0 <= i < tags.len() ==> ((#[trigger] tags[i]).is_sentinel <==> i == tags.len() - 1),
        tags.last().next_tag_addr is None,
{
    assert forall|i: int| 0 <= i < tags.len() - 1 implies !(#[trigger] tags[i]).is_sentinel by {
        assert(tags[i].precedes(tags[i + 1]));
    }
}

/// From `from` on, [`first_fit_from`] finds the first tag that fits, and
/// nothing only if no tag fits.
pub proof fn lemma_first_fit_from(tags: Seq<TagModel>, size: int, from: int)
    requires
        0 <= from <= tags.len(),
    ensures
        match first_fit_from(tags, size, from) {
            Some(index) => {
                &&& from <= index < tags.len()
                &&& fits(tags[index], size)
                &&& forall|j: int| from <= j < index ==> !fits(#[trigger] tags[j], size)
            },
            None => forall|j: int| from <= j < tags.len() ==> !fits(#[trigger] tags[j], size),
        },
    decreases tags.len() - from,
{
    if from < tags.len() && !fits(tags[from], size) {
        lemma_first_fit_from(tags, size, from + 1);
    }
}

/// [`first_fit`] names the tag that fits and has no fitting tag before it,
/// and none only if no tag of the chain fits.
pub proof fn lemma_first_fit(tags: Seq<TagModel>, size: int)
    ensures
        match first_fit(tags, size) {
            Some(index) => is_first_fit(tags, size, index),
            None => forall|j: int| 0 <= j < tags.len() ==> !fits(#[trigger] tags[j], size),
        },
{
    lemma_first_fit_from(tags, size, 0);
}

/// A tag that fits and has no fitting tag before it is the one that
/// [`first_fit`] names.
pub proof fn lemma_first_fit_unique(tags: Seq<TagModel>, size: int, index: int)
    requires
        is_first_fit(tags, size, index),
    ensures
        first_fit(tags, size) == Some(index),
{
    lemma_first_fit(tags, size);
}

/// From `from` on, [`find_block_from`] finds the first block with its usable
/// area at `addr`, and nothing only if there is no such block.
pub proof fn lemma_find_block_from(tags: Seq<TagModel>, addr: int, from: int)
    requires
        0 <= from <= tags.len(),
    ensures
        match find_block_from(tags, addr, from) {
            Some(index) => {
                &&& from <= index
                &&& is_block_at(tags, addr, index)
                &&& forall|j: int| from <= j < index ==> !is_block_at(tags, addr, j)
            },
            None => forall|j: int| from <= j ==> !is_block_at(tags, addr, j),
        },
    decreases tags.len() - from,
{
    if from < tags.len() && tags[from].addr_free_area() != addr {
        lemma_find_block_from(tags, addr, from + 1);
    }
}

/// In a chain at most one block has its usable area at a given address, so a
/// block that has is the one that [`find_block`] names.
pub proof fn lemma_block_index_unique(span: Span, tags: Seq<TagModel>, addr: int, index: int)
    requires
        is_chain(span, tags),
        is_block_at(tags, addr, index),
    ensures
        find_block(tags, addr) == Some(index),
{
    lemma_find_block_from(tags, addr, 0);
    let found = find_block(tags, addr).unwrap();
    if found < index {
        lemma_chain_ordered(span, tags, found, index);
    }
}

/// In a chain at most one tag has its header at a given address, so [`tag_at`]
/// finds the tag at `index` by its address.
pub proof fn lemma_tag_at_unique(span: Span, tags: Seq<TagModel>, index: int)
    requires
        is_chain(span, tags),
        0 <= index < tags.len(),
    ensures
        tag_at(tags, tags[index].addr) == Some(tags[index]),
{
    lemma_block_index_unique(span, tags, tags[index].addr_free_area(), index);
}

/// In a chain the lookup of a neighbour by its stored address finds the tag
/// that stands next in the chain: the successor of every tag but the last,
/// the predecessor of every tag but the first, and nothing at either end.
pub proof fn lemma_neighbours_by_address(span: Span, tags: Seq<TagModel>, index: int)
    requires
        is_chain(span, tags),
        0 <= index < tags.len(),
    ensures
        next_tag_of(tags, tags[index]) == successor(tags, index),
        prev_tag_of(tags, tags[index]) == predecessor(tags, index),
{
    lemma_sentinel_unique(span, tags);
    if index + 1 < tags.len() {
        lemma_tag_at_unique(span, tags, index + 1);
    }
    if index > 0 {
        lemma_tag_at_unique(span, tags, index - 1);
    }
}

/// Changing an allocation flag leaves a chain a chain.
pub proof fn lemma_mark_is_chain(span: Span, tags: Seq<TagModel>, index: int, is_alloc: bool)
    requires
        is_chain(span, tags),
        0 <= index < tags.len(),
    ensures
        is_chain(span, mark(tags, index, is_alloc)),
        mark(tags, index, is_alloc).len() == tags.len(),
{
}

/// A split that takes place leaves a chain a chain, with one tag more. The
/// bytes of the new header are the only usable bytes that are lost.
pub proof fn lemma_split_at_is_chain(
    span: Span,
    tags: Seq<TagModel>,
    index: int,
    request_size: int,
)
    requires
        is_chain(span, tags),
        0 <= index < tags.len(),
        0 <= request_size,
        tags[index].can_divide(request_size),
    ensures
        is_chain(span, split_at(tags, index, request_size)),
        split_at(tags, index, request_size).len() == tags.len() + 1,
        total_free(split_at(tags, index, request_size)) == total_free(tags) - HEADER_SIZE,
{
    lemma_divide_conserves(tags[index], request_size);
    lemma_size_conservation(span, tags);
    lemma_size_conservation(span, split_at(tags, index, request_size));
}

/// Coalescing a tag with its successor leaves a chain a chain, with one tag
/// less. The bytes of the successor's header become usable bytes.
pub proof fn lemma_merge_at_is_chain(span: Span, tags: Seq<TagModel>, index: int)
    requires
        is_chain(span, tags),
        0 <= index,
        index + 1 < tags.len(),
    ensures
        is_chain(span, merge_at(tags, index)),
        merge_at(tags, index).len() == tags.len() - 1,
        total_free(merge_at(tags, index)) == total_free(tags) + HEADER_SIZE,
{
    lemma_merge_conserves(tags[index], tags[index + 1]);
    lemma_size_conservation(span, tags);
    lemma_size_conservation(span, merge_at(tags, index));
}

/// Handing out a block that was split off a chain without neighbouring free
/// blocks leaves such a chain.
pub proof fn lemma_carve_at_wf(span: Span, tags: Seq<TagModel>, index: int, request_size: int)
    requires
        is_chain(span, tags),
        coalesced(tags),
        0 <= index < tags.len(),
        0 <= request_size,
        tags[index].can_divide(request_size),
    ensures
        is_chain(span, carve_at(tags, index, request_size)),
        coalesced(carve_at(tags, index, request_size)),
        carve_at(tags, index, request_size).len() == tags.len() + 1,
{
    lemma_split_at_is_chain(span, tags, index, request_size);
    lemma_mark_is_chain(span, split_at(tags, index, request_size), index + 1, true);
}

/// The allocation flags of the tags, in order.
spec fn alloc_flags(tags: Seq<TagModel>) -> Seq<bool> {
    Seq::new(tags.len(), |i: int| tags[i].is_alloc)
}

/// No two neighbouring flags are both false.
spec fn no_free_pair(flags: Seq<bool>) -> bool {
    forall|i: int, j: int|
        0 <= i && j == i + 1 && j < flags.len() ==> #[trigger] flags[i] || #[trigger] flags[j]
}

/// What [`join_next`] does to the flags.
spec fn join_next_flags(flags: Seq<bool>, index: int) -> Seq<bool> {
    if index + 1 < flags.len() && !flags[index + 1] {
        flags.remove(index + 1)
    } else {
        flags
    }
}

/// What [`release_at`] does to the flags.
spec fn release_flags(flags: Seq<bool>, index: int) -> Seq<bool> {
    let freed = flags.update(index, false);
    if index > 0 && !freed[index - 1] {
        join_next_flags(freed.remove(index), index - 1)
    } else {
        join_next_flags(freed, index)
    }
}

/// A chain is coalesced exactly if its flags have no free pair.
proof fn lemma_coalesced_by_flags(tags: Seq<TagModel>)
    ensures
        coalesced(tags) <==> no_free_pair(alloc_flags(tags)),
{
    let flags = alloc_flags(tags);
    if no_free_pair(flags) {
        assert forall|i: int, j: int| 0 <= i && j == i + 1 && j < tags.len() implies
            (#[trigger] tags[i]).is_alloc || (#[trigger] tags[j]).is_alloc by {
            assert(flags[i] || flags[j]);
        }
    }
}

/// Coalescing a tag of a chain with its successor takes the successor's flag
/// out and keeps all others.
proof fn lemma_merge_at_flags(span: Span, tags: Seq<TagModel>, index: int)
    requires
        is_chain(span, tags),
        0 <= index,
        index + 1 < tags.len(),
    ensures
        alloc_flags(merge_at(tags, index)) == alloc_flags(tags).remove(index + 1),
{
}

/// Letting a tag of a chain take in its free successor leaves a chain, and
/// does to the flags what [`join_next_flags`] says.
proof fn lemma_join_next_flags(span: Span, tags: Seq<TagModel>, index: int)
    requires
        is_chain(span, tags),
        0 <= index < tags.len(),
    ensures
        is_chain(span, join_next(tags, index)),
        alloc_flags(join_next(tags, index)) == join_next_flags(alloc_flags(tags), index),
{
    if index + 1 < tags.len() && !tags[index + 1].is_alloc {
        lemma_merge_at_is_chain(span, tags, index);
        lemma_merge_at_flags(span, tags, index);
    }
}

/// A release leaves a chain, and does to the flags what [`release_flags`]
/// says.
proof fn lemma_release_at_flags(span: Span, tags: Seq<TagModel>, index: int)
    requires
        is_chain(span, tags),
        0 <= index < tags.len(),
    ensures
        is_chain(span, release_at(tags, index)),
        alloc_flags(release_at(tags, index)) == release_flags(alloc_flags(tags), index),
{
    let freed = mark(tags, index, false);
    lemma_mark_is_chain(span, tags, index, false);
    assert(alloc_flags(freed) == alloc_flags(tags).update(index, false));
    if index > 0 && !freed[index - 1].is_alloc {
        lemma_merge_at_is_chain(span, freed, index - 1);
        lemma_merge_at_flags(span, freed, index - 1);
        lemma_join_next_flags(span, merge_at(freed, index - 1), index - 1);
    } else {
        lemma_join_next_flags(span, freed, index);
    }
}

/// A release keeps flags without a free pair that way: the flag that becomes
/// false is joined with each false neighbour.
proof fn lemma_release_flags_no_free_pair(flags: Seq<bool>, index: int)
    requires
        no_free_pair(flags),
        0 <= index < flags.len(),
    ensures
        no_free_pair(release_flags(flags, index)),
{
}

/// Giving back a block of a chain without neighbouring free blocks leaves
/// such a chain: the released block is coalesced with every free neighbour.
pub proof fn lemma_release_at_wf(span: Span, tags: Seq<TagModel>, index: int)
    requires
        is_chain(span, tags),
        coalesced(tags),
        0 <= index < tags.len(),
    ensures
        is_chain(span, release_at(tags, index)),
        coalesced(release_at(tags, index)),
{
    lemma_release_at_flags(span, tags, index);
    lemma_coalesced_by_flags(tags);
    lemma_release_flags_no_free_pair(alloc_flags(tags), index);
    lemma_coalesced_by_flags(release_at(tags, index));
}

/// Giving back what was just allocated restores the chain: where an
/// allocation from a chain without neighbouring free blocks succeeds, the
/// deallocation of the returned address leaves the chain as it was before.
pub proof fn lemma_allocate_then_deallocate(span: Span, tags: Seq<TagModel>, size: int)
    requires
        is_chain(span, tags),
        coalesced(tags),
        0 <= size,
        can_allocate(tags, size),
    ensures
        chain_deallocate(chain_allocate(tags, size).0, chain_allocate(tags, size).1.unwrap())
            == tags,
{
    let index = first_fit(tags, size).unwrap();
    let tail = tags[index].divide_tail(size);
    let carved = carve_at(tags, index, size);
    lemma_first_fit(tags, size);
    lemma_carve_at_wf(span, tags, index, size);
    // The new block is the one at the returned address. The tag before it is
    // the free rest of the tag that was split, and takes the block in again;
    // the tag behind it, if any, is handed out and stays as it is.
    lemma_block_index_unique(span, carved, tail.addr_free_area(), index + 1);
    lemma_divide_then_merge(tags[index], size);
    assert(release_at(carved, index + 1) =~= tags);
}

/// Two blocks of equal size, allocated one after the other from an undivided
/// region and given back in either order, leave the region undivided again:
/// one free sentinel tag with all the usable bytes it had at the start.
pub proof fn lemma_two_blocks_in_either_order(span: Span, size: int)
    requires
        span.is_valid(),
        0 <= size,
        can_allocate(fresh_chain(span), size),
        can_allocate(chain_allocate(fresh_chain(span), size).0, size),
    ensures
        ({
            let (one, first) = chain_allocate(fresh_chain(span), size);
            let (two, second) = chain_allocate(one, size);
            let a = first.unwrap();
            let b = second.unwrap();
            &&& chain_deallocate(chain_deallocate(two, a), b) == fresh_chain(span)
            &&& chain_deallocate(chain_deallocate(two, b), a) == fresh_chain(span)
            &&& fresh_chain(span).len() == 1
            &&& fresh_chain(span)[0].free_area_size == span.length - HEADER_SIZE
            &&& fresh_chain(span)[0].is_sentinel
            &&& !fresh_chain(span)[0].is_alloc
        }),
{
    let fresh = fresh_chain(span);
    let whole = fresh[0];
    lemma_fresh_chain_wf(span);

    // Both blocks are carved off the first tag, the second in front of the
    // first.
    let front_one = whole.divide_front(size);
    let block_a = TagModel { is_alloc: true, ..whole.divide_tail(size) };
    let front_two = front_one.divide_front(size);
    let block_b = TagModel { is_alloc: true, ..front_one.divide_tail(size) };
    lemma_first_fit(fresh, size);
    let (one, first) = chain_allocate(fresh, size);
    lemma_carve_at_wf(span, fresh, 0, size);
    assert(one =~= seq![front_one, block_a]);
    lemma_first_fit(one, size);
    let (two, second) = chain_allocate(one, size);
    lemma_carve_at_wf(span, one, 0, size);
    let moved_a = TagModel { prev_tag_addr: Some(block_b.addr), ..block_a };
    assert(two =~= seq![front_two, block_b, moved_a]);
    let a = first.unwrap();
    let b = second.unwrap();

    // The later block first: each deallocation undoes one allocation.
    lemma_allocate_then_deallocate(span, one, size);
    lemma_allocate_then_deallocate(span, fresh, size);

    // The earlier block first: it has no free neighbour and stays in place.
    lemma_block_index_unique(span, two, a, 2);
    let without_a = chain_deallocate(two, a);
    assert(without_a =~= seq![front_two, block_b, TagModel { is_alloc: false, ..moved_a }]);
    lemma_release_at_wf(span, two, 2);

    // The later block then joins the free block before it, and the joined
    // block takes in the free block behind it.
    lemma_block_index_unique(span, without_a, b, 1);
    lemma_divide_then_merge(front_one, size);
    lemma_divide_then_merge(whole, size);
    assert(merge_at(mark(without_a, 1, false), 0) =~= seq![front_one, whole.divide_tail(size)]);
    assert(chain_deallocate(without_a, b) =~= fresh);
}

} // verus!
