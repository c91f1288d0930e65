use boundary_alloc::boundary_tag::{BoundaryTag, HEADER_SIZE};
use boundary_alloc::memory_region::MemoryRegion;
use boundary_alloc::tag_chain::TagChain;

fn allocate_memory() -> (usize, usize) {
    const SIZE: usize = 4096;
    (0x10_0000, SIZE)
}

#[test]
fn test_prev_tag_of() {
    let (addr, size) = allocate_memory();
    let mut chain = TagChain::new(MemoryRegion::new(addr, size));
    let tag = chain.tag(0);

    let none = BoundaryTag::prev_tag_of(&tag, &chain);
    assert_eq!(none.is_none(), true);

    let request_size = size / 4;
    let (tag, new_tag_opt) = BoundaryTag::divide(tag, request_size);
    assert_eq!(new_tag_opt.is_none(), false);
    assert_eq!(chain.allocate(request_size).is_none(), false);

    let new_tag = new_tag_opt.unwrap();
    let prev_tag_opt = BoundaryTag::prev_tag_of(&new_tag, &chain);
    assert_eq!(prev_tag_opt.is_none(), false);

    let prev_tag = prev_tag_opt.unwrap();

    assert_eq!(prev_tag.addr(), addr);
    assert_eq!(prev_tag.addr(), tag.addr());
    assert_eq!(prev_tag.is_alloc(), false);
    assert_eq!(prev_tag.is_sentinel(), false);
    assert_eq!(prev_tag.free_area_size(), size - (request_size + 2 * HEADER_SIZE));
}

#[test]
fn test_addr_free_area() {
    let (addr, size) = allocate_memory();
    let tag = BoundaryTag::from_memory(addr, size);
    {
        assert_eq!(tag.addr_free_area(), addr + HEADER_SIZE);
        assert_eq!(tag.free_area_size(), size - HEADER_SIZE);
    }

    let request_size = size / 4;
    let (tag, new_tag_opt) = BoundaryTag::divide(tag, request_size);
    {
        assert_eq!(tag.addr(), addr);
        assert_eq!(tag.addr_free_area(), addr + HEADER_SIZE);
        assert_eq!(tag.free_area_size(), size - HEADER_SIZE - request_size - HEADER_SIZE);
    }

    let new_tag = new_tag_opt.unwrap();
    assert_eq!(new_tag.addr_free_area(), new_tag.addr() + HEADER_SIZE);
    assert_eq!(new_tag.free_area_size(), request_size);
    assert_eq!(new_tag.addr(), tag.addr() + HEADER_SIZE + tag.free_area_size());
    assert_eq!(
        new_tag.addr_free_area(),
        tag.addr_free_area() + tag.free_area_size() + HEADER_SIZE
    );

    assert_eq!(tag.addr(), new_tag.addr() - tag.free_area_size() - HEADER_SIZE);
    assert_eq!(
        tag.addr(),
        new_tag.addr_free_area() - tag.free_area_size() - HEADER_SIZE * 2
    );
}

#[test]
fn test_is_next_of() {
    let (addr, size) = allocate_memory();
    let tag = BoundaryTag::from_memory(addr, size);
    let request_size = size / 4;
    let (tag, new_tag_opt) = BoundaryTag::divide(tag, request_size);
    let new_tag = new_tag_opt.unwrap();

    assert_eq!(new_tag.is_next_of(&tag), true);
    assert_eq!(tag.is_next_of(&new_tag), false);
}

#[test]
fn test_is_prev_of() {
    let (addr, size) = allocate_memory();
    let tag = BoundaryTag::from_memory(addr, size);
    let request_size = size / 4;
    let (tag, new_tag_opt) = BoundaryTag::divide(tag, request_size);
    let new_tag = new_tag_opt.unwrap();

    assert_eq!(new_tag.is_prev_of(&tag), false);
    assert_eq!(tag.is_prev_of(&new_tag), true);
}

#[test]
fn test_header_size() {
    assert_eq!(HEADER_SIZE, 32);
}

#[test]
fn test_addr() {
    let (addr, size) = allocate_memory();
    let tag = BoundaryTag::from_memory(addr, size);
    assert_eq!(addr, tag.addr());
}

#[test]
fn test_boundary_tag_from_memory() {
    let (addr, size) = allocate_memory();

    let tag = BoundaryTag::from_memory(addr, size);
    assert_eq!(tag.addr(), addr);
    assert_eq!(tag.free_area_size(), size - HEADER_SIZE);
    assert_eq!(tag.free_area_size(), 4064);
    assert_eq!(tag.is_alloc(), false);
    assert_eq!(tag.is_sentinel(), true);
    assert_eq!(tag.prev_tag_addr(), None);
    assert_eq!(tag.next_tag_addr(), None);
}

#[test]
fn test_from_memory_smallest_region() {
    let tag = BoundaryTag::from_memory(0, HEADER_SIZE + 1);
    assert_eq!(tag.addr(), 0);
    assert_eq!(tag.free_area_size(), 1);
    assert_eq!(tag.addr_free_area(), HEADER_SIZE);
}

#[test]
fn test_from_memory_at_top_of_address_space() {
    let addr = usize::MAX - 4096;
    let tag = BoundaryTag::from_memory(addr, 4096);
    assert_eq!(tag.free_area_size(), 4096 - HEADER_SIZE);
    assert_eq!(tag.addr_free_area(), addr + HEADER_SIZE);
    let (front, tail) = BoundaryTag::divide(tag, 64);
    let tail = tail.unwrap();
    assert_eq!(tail.addr_free_area() + tail.free_area_size(), usize::MAX);
    assert_eq!(front.next_tag_addr(), Some(tail.addr()));
}

#[test]
fn test_tag_size() {
    let (addr, size) = allocate_memory();
    let tag = BoundaryTag::from_memory(addr, size);
    assert_eq!(tag.free_area_size(), size - HEADER_SIZE);

    let request_size = size / 2;
    let (tag, new_tag_opt) = BoundaryTag::divide(tag, request_size);
    let new_tag = new_tag_opt.unwrap();
    assert_eq!(tag.free_area_size(), size - HEADER_SIZE * 2 - request_size);
    assert_eq!(new_tag.free_area_size(), request_size);
    assert_eq!(
        size,
        tag.free_area_size() + new_tag.free_area_size() + HEADER_SIZE * 2
    );
}

#[test]
fn test_divide() {
    let (addr, size) = allocate_memory();
    let tag = BoundaryTag::from_memory(addr, size);
    assert_eq!(tag.free_area_size(), size - HEADER_SIZE);

    let request_size = size;
    let (tag, new_tag_opt) = BoundaryTag::divide(tag, request_size);
    assert!(new_tag_opt.is_none());
    assert_eq!(tag.free_area_size(), size - HEADER_SIZE);

    let request_size = size / 4;
    let (tag, new_tag_opt) = BoundaryTag::divide(tag, request_size);
    let new_tag = new_tag_opt.unwrap();
    assert_eq!(
        tag.free_area_size(),
        size - HEADER_SIZE - request_size - HEADER_SIZE
    );
    assert_eq!(tag.free_area_size(), 3008);

    assert_eq!(new_tag.addr(), addr + HEADER_SIZE + tag.free_area_size());
    assert_eq!(new_tag.addr(), addr + 3040);
    assert_eq!(new_tag.free_area_size(), request_size);
    assert_eq!(new_tag.is_alloc(), false);
    assert_eq!(new_tag.is_sentinel(), true);
    assert_eq!(new_tag.prev_tag_addr(), Some(addr));
    assert_eq!(new_tag.next_tag_addr(), None);

    assert_eq!(
        tag.free_area_size(),
        size - (new_tag.free_area_size() + HEADER_SIZE * 2)
    );
    assert_eq!(tag.is_alloc(), false);
    assert_eq!(tag.is_sentinel(), false);
    assert_eq!(tag.prev_tag_addr(), None);
    assert_eq!(tag.next_tag_addr(), Some(new_tag.addr()));

    assert_eq!(
        size,
        tag.free_area_size() + new_tag.free_area_size() + HEADER_SIZE * 2
    );
}

#[test]
fn test_divide_threshold() {
    let (addr, size) = allocate_memory();
    let tag = BoundaryTag::from_memory(addr, size);
    let free = tag.free_area_size();

    // The free area equals the request plus one header: no split.
    let (same, none) = BoundaryTag::divide(tag, free - HEADER_SIZE);
    assert!(none.is_none());
    assert_eq!(same.free_area_size(), free);
    assert_eq!(same.is_sentinel(), true);
    assert_eq!(same.next_tag_addr(), None);

    // One byte less is requested: the split leaves the tag one usable byte.
    let (front, tail) = BoundaryTag::divide(tag, free - HEADER_SIZE - 1);
    let tail = tail.unwrap();
    assert_eq!(front.free_area_size(), 1);
    assert_eq!(tail.free_area_size(), free - HEADER_SIZE - 1);
    assert_eq!(tail.addr(), addr + HEADER_SIZE + 1);
}

#[test]
fn test_divide_declines_oversized_requests() {
    let (addr, size) = allocate_memory();
    let tag = BoundaryTag::from_memory(addr, size);
    for request in [size, usize::MAX - HEADER_SIZE, usize::MAX - 1, usize::MAX] {
        let (same, none) = BoundaryTag::divide(tag, request);
        assert!(none.is_none());
        assert_eq!(same.addr(), addr);
        assert_eq!(same.free_area_size(), size - HEADER_SIZE);
        assert_eq!(same.is_sentinel(), true);
    }
}

#[test]
fn test_divide_zero_bytes() {
    let (addr, size) = allocate_memory();
    let tag = BoundaryTag::from_memory(addr, size);
    let (front, tail) = BoundaryTag::divide(tag, 0);
    let tail = tail.unwrap();
    assert_eq!(tail.free_area_size(), 0);
    assert_eq!(tail.addr(), addr + size - HEADER_SIZE);
    assert_eq!(front.free_area_size(), size - 2 * HEADER_SIZE);
}

#[test]
fn test_divide_inherits_successor() {
    let (addr, size) = allocate_memory();
    let tag = BoundaryTag::from_memory(addr, size);
    let (front, last) = BoundaryTag::divide(tag, 1000);
    let last = last.unwrap();
    // The front part has a successor now; a second split hands it on.
    let (front, middle) = BoundaryTag::divide(front, 500);
    let middle = middle.unwrap();
    assert_eq!(front.is_sentinel(), false);
    assert_eq!(middle.is_sentinel(), false);
    assert_eq!(middle.next_tag_addr(), Some(last.addr()));
    assert_eq!(middle.prev_tag_addr(), Some(front.addr()));
    assert_eq!(front.next_tag_addr(), Some(middle.addr()));
    assert_eq!(middle.addr() + HEADER_SIZE + middle.free_area_size(), last.addr());
    assert_eq!(
        front.free_area_size(),
        size - HEADER_SIZE - (1000 + HEADER_SIZE) - (500 + HEADER_SIZE)
    );
}

#[test]
fn test_merge() {
    let (addr, size) = allocate_memory();
    let tag = BoundaryTag::from_memory(addr, size);
    let request_size = size / 4;
    let (tag, new_tag_opt) = BoundaryTag::divide(tag, request_size);
    let new_tag = new_tag_opt.unwrap();

    let merged_tag = BoundaryTag::merge(tag, new_tag);
    assert_eq!(merged_tag.free_area_size(), size - HEADER_SIZE);
}

#[test]
fn test_split_merge_round_trip() {
    let (addr, size) = allocate_memory();
    let fresh = BoundaryTag::from_memory(addr, size);
    for request in [0usize, 1, 100, 1024, 4096 - 2 * HEADER_SIZE - 1] {
        let (front, tail) = BoundaryTag::divide(fresh, request);
        let tail = tail.unwrap();
        for merged in [BoundaryTag::merge(front, tail), BoundaryTag::merge(tail, front)] {
            assert_eq!(merged.addr(), addr);
            assert_eq!(merged.free_area_size(), size - HEADER_SIZE);
            assert_eq!(merged.is_sentinel(), true);
            assert_eq!(merged.is_alloc(), false);
            assert_eq!(merged.prev_tag_addr(), None);
            assert_eq!(merged.next_tag_addr(), None);
        }
    }
}

#[test]
fn test_merge_takes_over_successor() {
    let (addr, size) = allocate_memory();
    let tag = BoundaryTag::from_memory(addr, size);
    let (front, last) = BoundaryTag::divide(tag, 1000);
    let last = last.unwrap();
    let (front, middle) = BoundaryTag::divide(front, 500);
    let middle = middle.unwrap();

    let merged = BoundaryTag::merge(middle, front);
    assert_eq!(merged.addr(), addr);
    assert_eq!(merged.is_sentinel(), false);
    assert_eq!(merged.next_tag_addr(), Some(last.addr()));
    assert_eq!(merged.free_area_size(), size - HEADER_SIZE - (1000 + HEADER_SIZE));
    assert_eq!(merged.addr() + HEADER_SIZE + merged.free_area_size(), last.addr());
}

#[test]
fn test_adjacency_symmetry() {
    let (addr, size) = allocate_memory();
    let tag = BoundaryTag::from_memory(addr, size);
    for request in [0usize, 7, 2048] {
        let (front, tail) = BoundaryTag::divide(tag, request);
        let tail = tail.unwrap();
        assert_eq!(tail.is_prev_of(&front), false);
        assert_eq!(front.is_prev_of(&tail), true);
        assert_eq!(tail.is_next_of(&front), true);
        assert_eq!(front.is_next_of(&tail), false);
    }
}

#[test]
fn test_unrelated_tags_are_no_neighbours() {
    let a = BoundaryTag::from_memory(0x1000, 256);
    let b = BoundaryTag::from_memory(0x2000, 256);
    assert_eq!(a.is_next_of(&b), false);
    assert_eq!(a.is_prev_of(&b), false);
    assert_eq!(a.is_next_of(&a), false);
    assert_eq!(a.is_prev_of(&a), false);
}

#[test]
fn test_setters() {
    let mut tag = BoundaryTag::from_memory(0x1000, 256);
    tag.set_alloc(true);
    assert_eq!(tag.is_alloc(), true);
    assert_eq!(tag.free_area_size(), 256 - HEADER_SIZE);
    tag.set_alloc(false);
    assert_eq!(tag.is_alloc(), false);
    tag.set_prev_tag_addr(Some(0x800));
    assert_eq!(tag.prev_tag_addr(), Some(0x800));
    assert_eq!(tag.next_tag_addr(), None);
    assert_eq!(tag.addr(), 0x1000);
    tag.set_prev_tag_addr(None);
    assert_eq!(tag.prev_tag_addr(), None);
}
