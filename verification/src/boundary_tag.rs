//! Boundary tags: the fixed-size headers at the start of every block, and the
//! operations that initialise, split and coalesce them.
//!
//! A tag is handled as a plain value that carries its own address. The
//! operations of this module take tags and return the tags as they have to be
//! stored afterwards; keeping a whole chain of tags consistent is the business
//! of [`crate::tag_chain`].

use vstd::prelude::*;

verus! {

/// Bytes that one boundary tag occupies at the start of its block: four words
/// of eight bytes, which hold the two flag bytes padded to a word, the size
/// and the two neighbour links.
pub const HEADER_SIZE: usize = 32;

/// Mathematical model of a boundary tag. Addresses and sizes are unbounded
/// integers, so that statements about them need no overflow side conditions.
pub struct TagModel {
    /// Address of the first header byte.
    pub addr: int,
    /// Whether the usable area is handed out to a caller.
    pub is_alloc: bool,
    /// Whether this is the last tag of its region.
    pub is_sentinel: bool,
    /// Usable bytes behind the header.
    pub free_area_size: int,
    /// Address of the tag before this one, if there is one.
    pub prev_tag_addr: Option<int>,
    /// Address of the tag behind this one, if there is one.
    pub next_tag_addr: Option<int>,
}

impl TagModel {
    /// Address of the first usable byte, directly behind the header.
    pub open spec fn addr_free_area(self) -> int {
        self.addr + HEADER_SIZE
    }

    /// Address of the first byte behind the block.
    pub open spec fn end(self) -> int {
        self.addr + HEADER_SIZE + self.free_area_size
    }

    /// What holds of every tag, whatever chain it belongs to: the block lies
    /// within the address space, the tag is the sentinel exactly if it has no
    /// successor, a successor starts where the block ends, and a predecessor
    /// lies at least one header before the tag.
    pub open spec fn wf(self) -> bool {
        &&& 0 <= self.addr
        &&& 0 <= self.free_area_size
        &&& self.end() <= usize::MAX
        &&& self.is_sentinel <==> self.next_tag_addr is None
        &&& self.next_tag_addr matches Some(next) ==> next == self.end()
        &&& self.prev_tag_addr matches Some(prev) ==> 0 <= prev && prev + HEADER_SIZE <= self.addr
    }

    /// `self` is the tag that `tag` names as its successor.
    pub open spec fn is_next_of(self, tag: TagModel) -> bool {
        tag.next_tag_addr == Some(self.addr)
    }

    /// `self` is the tag that `tag` names as its predecessor.
    pub open spec fn is_prev_of(self, tag: TagModel) -> bool {
        tag.prev_tag_addr == Some(self.addr)
    }

    /// `self` and `next` are direct neighbours, `self` first: `next` starts
    /// where the block of `self` ends, and each names the other.
    pub open spec fn precedes(self, next: TagModel) -> bool {
        &&& next.addr == self.end()
        &&& self.is_prev_of(next)
        &&& next.is_next_of(self)
    }

    /// The single free tag that covers `size` bytes starting at `addr`.
    pub open spec fn from_memory(addr: int, size: int) -> TagModel {
        TagModel {
            addr: addr,
            is_alloc: false,
            is_sentinel: true,
            free_area_size: size - HEADER_SIZE,
            prev_tag_addr: None,
            next_tag_addr: None,
        }
    }

    /// A block of `request_size` usable bytes and its header can be carved off
    /// this tag only if that leaves the tag at least one usable byte.
    pub open spec fn can_divide(self, request_size: int) -> bool {
        self.free_area_size > request_size + HEADER_SIZE
    }

    /// The tag as it is after a block of `request_size` usable bytes was carved
    /// off its tail: it keeps its address and its predecessor, shrinks by the
    /// new block and its header, and is followed by the new block.
    pub open spec fn divide_front(self, request_size: int) -> TagModel {
        TagModel {
            is_sentinel: false,
            free_area_size: self.free_area_size - (request_size + HEADER_SIZE),
            next_tag_addr: Some(self.end() - (request_size + HEADER_SIZE)),
            ..self
        }
    }

    /// The new tag that a split places at the end of this tag's free area. It is
    /// free, follows this tag, and takes over this tag's successor and sentinel
    /// status.
    pub open spec fn divide_tail(self, request_size: int) -> TagModel {
        TagModel {
            addr: self.end() - (request_size + HEADER_SIZE),
            is_alloc: false,
            is_sentinel: self.is_sentinel,
            free_area_size: request_size,
            prev_tag_addr: Some(self.addr),
            next_tag_addr: self.next_tag_addr,
        }
    }

    /// The tag that remains when `self` takes in its successor `next`: the
    /// successor's header and free area become free area of `self`, which also
    /// takes over the successor's own successor and sentinel status.
    pub open spec fn absorb(self, next: TagModel) -> TagModel {
        TagModel {
            is_sentinel: next.is_sentinel,
            free_area_size: self.free_area_size + HEADER_SIZE + next.free_area_size,
            next_tag_addr: next.next_tag_addr,
            ..self
        }
    }

    /// The result of coalescing two neighbours given in either order.
    pub open spec fn merge(self, tag: TagModel) -> TagModel {
        if self.is_prev_of(tag) {
            self.absorb(tag)
        } else {
            tag.absorb(self)
        }
    }
}

/// An optional address or index as an optional integer.
pub open spec fn as_int(value: Option<usize>) -> Option<int> {
    match value {
        Some(v) => Some(v as int),
        None => None,
    }
}

/// The header at the start of a block. The value carries the address at which
/// the header lies, so that neighbours can be told by address.
#[derive(Clone, Copy, Debug, PartialEq, Eq)]
pub struct BoundaryTag {
    addr: usize,
    is_alloc: bool,
    is_sentinel: bool,
    free_area_size: usize,
    prev_tag_addr: Option<usize>,
    next_tag_addr: Option<usize>,
}

impl View for BoundaryTag {
    type V = TagModel;

    closed spec fn view(&self) -> TagModel {
        TagModel {
            addr: self.addr as int,
            is_alloc: self.is_alloc,
            is_sentinel: self.is_sentinel,
            free_area_size: self.free_area_size as int,
            prev_tag_addr: as_int(self.prev_tag_addr),
            next_tag_addr: as_int(self.next_tag_addr),
        }
    }
}

impl BoundaryTag {
    /// What holds of every tag: its model is well formed.
    #[verifier::type_invariant]
    pub open spec fn wf(&self) -> bool {
        self@.wf()
    }

    /// Address of the header.
    pub fn addr(&self) -> (addr: usize)
        ensures
            addr == self@.addr,
    {
        self.addr
    }

    /// Address of the first usable byte of the block.
    pub fn addr_free_area(&self) -> (addr: usize)
        ensures
            addr == self@.addr_free_area(),
    {
        proof {
            use_type_invariant(self);
        }
        self.addr + HEADER_SIZE
    }

    /// Whether the block is handed out.
    pub fn is_alloc(&self) -> (flag: bool)
        ensures
            flag == self@.is_alloc,
    {
        self.is_alloc
    }

    /// Whether the tag is the last one of its region.
    pub fn is_sentinel(&self) -> (flag: bool)
        ensures
            flag == self@.is_sentinel,
    {
        self.is_sentinel
    }

    /// Usable bytes of the block.
    pub fn free_area_size(&self) -> (size: usize)
        ensures
            size == self@.free_area_size,
    {
        self.free_area_size
    }

    /// Address of the preceding tag, if any.
    pub fn prev_tag_addr(&self) -> (prev: Option<usize>)
        ensures
            as_int(prev) == self@.prev_tag_addr,
    {
        self.prev_tag_addr
    }

    /// Address of the following tag, if any.
    pub fn next_tag_addr(&self) -> (next: Option<usize>)
        ensures
            as_int(next) == self@.next_tag_addr,
    {
        self.next_tag_addr
    }

    /// Marks the block as handed out or as free.
    pub fn set_alloc(&mut self, is_alloc: bool)
        ensures
            final(self)@ == (TagModel { is_alloc: is_alloc, ..old(self)@ }),
            final(self).wf(),
    {
        proof {
            use_type_invariant(&*self);
        }
        self.is_alloc = is_alloc;
    }

    /// Points the backward link at another predecessor, which lies at least
    /// one header before this tag, or at none.
    pub fn set_prev_tag_addr(&mut self, prev: Option<usize>)
        requires
            prev matches Some(addr) ==> addr + HEADER_SIZE <= old(self)@.addr,
        ensures
            final(self)@ == (TagModel { prev_tag_addr: as_int(prev), ..old(self)@ }),
            final(self).wf(),
    {
        proof {
            use_type_invariant(&*self);
        }
        self.prev_tag_addr = prev;
    }

    /// Whether `self` is the tag that `tag` names as its successor.
    pub fn is_next_of(&self, tag: &BoundaryTag) -> (flag: bool)
        ensures
            flag == self@.is_next_of(tag@),
    {
        match tag.next_tag_addr {
            Some(next) => next == self.addr,
            None => false,
        }
    }

    /// Whether `self` is the tag that `tag` names as its predecessor.
    pub fn is_prev_of(&self, tag: &BoundaryTag) -> (flag: bool)
        ensures
            flag == self@.is_prev_of(tag@),
    {
        match tag.prev_tag_addr {
            Some(prev) => prev == self.addr,
            None => false,
        }
    }

    /// Creates the tag of a region that was not divided yet: one free block
    /// that covers the `size` bytes at `addr` and has no neighbours.
    pub fn from_memory(addr: usize, size: usize) -> (tag: BoundaryTag)
        requires
            HEADER_SIZE < size,
            addr + size <= usize::MAX,
        ensures
            tag@ == TagModel::from_memory(addr as int, size as int),
            tag.wf(),
    {
        BoundaryTag {
            addr: addr,
            is_alloc: false,
            is_sentinel: true,
            free_area_size: size - HEADER_SIZE,
            prev_tag_addr: None,
            next_tag_addr: None,
        }
    }

    /// Carves a block of `request_size` usable bytes off the tail of `tag`.
    ///
    /// Returns the tag as it is afterwards and, if the split took place, the
    /// tag of the new block. The split takes place only if it leaves `tag`
    /// at least one usable byte; otherwise `tag` comes back unchanged.
    pub fn divide(tag: BoundaryTag, request_size: usize) -> (parts: (
        BoundaryTag,
        Option<BoundaryTag>,
    ))
        ensures
            !tag@.can_divide(request_size as int) ==> parts.0@ == tag@ && parts.1 is None,
            tag@.can_divide(request_size as int) ==> {
                &&& parts.0@ == tag@.divide_front(request_size as int)
                &&& parts.1 is Some
                &&& parts.1.unwrap()@ == tag@.divide_tail(request_size as int)
                &&& parts.1.unwrap().wf()
            },
            parts.0.wf(),
    {
        proof {
            use_type_invariant(&tag);
        }
        if request_size > usize::MAX - HEADER_SIZE {
            return (tag, None);
        }
        let required_size = request_size + HEADER_SIZE;
        if tag.free_area_size <= required_size {
            return (tag, None);
        }
        let new_tag_addr = tag.addr + HEADER_SIZE + (tag.free_area_size - required_size);
        let front = BoundaryTag {
            addr: tag.addr,
            is_alloc: tag.is_alloc,
            is_sentinel: false,
            free_area_size: tag.free_area_size - required_size,
            prev_tag_addr: tag.prev_tag_addr,
            next_tag_addr: Some(new_tag_addr),
        };
        let tail = BoundaryTag {
            addr: new_tag_addr,
            is_alloc: false,
            is_sentinel: tag.is_sentinel,
            free_area_size: request_size,
            prev_tag_addr: Some(tag.addr),
            next_tag_addr: tag.next_tag_addr,
        };
        (front, Some(tail))
    }

    /// Coalesces two direct neighbours, given in either order, into the tag of
    /// the earlier one.
    pub fn merge(tag_x: BoundaryTag, tag_y: BoundaryTag) -> (merged: BoundaryTag)
        requires
            tag_x@.precedes(tag_y@) || tag_y@.precedes(tag_x@),
        ensures
            merged@ == tag_x@.merge(tag_y@),
            merged.wf(),
    {
        proof {
            use_type_invariant(&tag_x);
            use_type_invariant(&tag_y);
        }
        let (tag_prev, tag_next) = if tag_x.is_prev_of(&tag_y) {
            (tag_x, tag_y)
        } else {
            (tag_y, tag_x)
        };
        BoundaryTag {
            addr: tag_prev.addr,
            is_alloc: tag_prev.is_alloc,
            is_sentinel: tag_next.is_sentinel,
            free_area_size: tag_prev.free_area_size + HEADER_SIZE + tag_next.free_area_size,
            prev_tag_addr: tag_prev.prev_tag_addr,
            next_tag_addr: tag_next.next_tag_addr,
        }
    }
}

/// The tag of an undivided region is well formed when the region lies within
/// the address space and is longer than one header.
pub proof fn lemma_from_memory_wf(addr: int, size: int)
    requires
        0 <= addr,
        HEADER_SIZE < size,
        addr + size <= usize::MAX,
    ensures
        TagModel::from_memory(addr, size).wf(),
        TagModel::from_memory(addr, size).end() == addr + size,
{
}

/// A split loses no byte. The new block has exactly the requested usable
/// size, the tag in front of it shrinks by that size and one header, the new
/// block starts where the shrunk one ends and ends where the undivided one
/// ended. Both tags are well formed and direct neighbours.
pub proof fn lemma_divide_conserves(tag: TagModel, request_size: int)
    requires
        tag.wf(),
        0 <= request_size,
        tag.can_divide(request_size),
    ensures
        tag.divide_tail(request_size).free_area_size == request_size,
        tag.divide_front(request_size).free_area_size
            == tag.free_area_size - (request_size + HEADER_SIZE),
        tag.divide_front(request_size).free_area_size > 0,
        tag.divide_front(request_size).end() == tag.divide_tail(request_size).addr,
        tag.divide_tail(request_size).end() == tag.end(),
        tag.divide_front(request_size).wf(),
        tag.divide_tail(request_size).wf(),
        tag.divide_front(request_size).precedes(tag.divide_tail(request_size)),
{
}

/// Coalescing two well-formed direct neighbours gives a well-formed tag that
/// covers both blocks: it starts where the first starts and ends where the
/// second ends.
pub proof fn lemma_merge_conserves(prev: TagModel, next: TagModel)
    requires
        prev.wf(),
        next.wf(),
        prev.precedes(next),
    ensures
        prev.merge(next) == prev.absorb(next),
        next.merge(prev) == prev.absorb(next),
        prev.absorb(next).wf(),
        prev.absorb(next).addr == prev.addr,
        prev.absorb(next).end() == next.end(),
        prev.absorb(next).free_area_size
            == prev.free_area_size + HEADER_SIZE + next.free_area_size,
{
}

/// Splitting a tag and coalescing the two parts again, given in either order,
/// restores the tag as it was.
pub proof fn lemma_divide_then_merge(tag: TagModel, request_size: int)
    requires
        tag.wf(),
        tag.can_divide(request_size),
    ensures
        tag.divide_front(request_size).merge(tag.divide_tail(request_size)) == tag,
        tag.divide_tail(request_size).merge(tag.divide_front(request_size)) == tag,
{
}

/// For the tag of an undivided region with `free_size` usable bytes: a split
/// that takes place, followed by coalescing its two parts, gives one sentinel
/// tag with `free_size` usable bytes again, the tag that was there before.
pub proof fn lemma_fresh_divide_then_merge(addr: int, free_size: int, request_size: int)
    requires
        0 <= addr,
        addr + HEADER_SIZE + free_size <= usize::MAX,
        request_size + HEADER_SIZE < free_size,
    ensures
        ({
            let tag = TagModel::from_memory(addr, free_size + HEADER_SIZE);
            let merged = tag.divide_front(request_size).merge(tag.divide_tail(request_size));
            &&& tag.free_area_size == free_size
            &&& merged.free_area_size == free_size
            &&& merged.is_sentinel
            &&& merged == tag
        }),
{
}

/// After a split the two parts name each other and nothing else: the front
/// part is the predecessor of the new block, the new block is the successor of
/// the front part, and neither relation holds the other way round.
pub proof fn lemma_divide_adjacency(tag: TagModel, request_size: int)
    requires
        tag.wf(),
        tag.can_divide(request_size),
    ensures
        ({
            let front = tag.divide_front(request_size);
            let tail = tag.divide_tail(request_size);
            &&& !tail.is_prev_of(front)
            &&& front.is_prev_of(tail)
            &&& tail.is_next_of(front)
            &&& !front.is_next_of(tail)
        }),
{
}

} // verus!
