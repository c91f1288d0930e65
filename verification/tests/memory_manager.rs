use boundary_alloc::boundary_tag::{BoundaryTag, HEADER_SIZE};
use boundary_alloc::memory_manager::MemoryManager;
use boundary_alloc::memory_region::MemoryRegion;

const BASE: usize = 0x30_0000;
const SIZE: usize = 4096;

fn single() -> MemoryManager {
    MemoryManager::new(vec![MemoryRegion::new(BASE, SIZE)])
}

fn snapshot(manager: &MemoryManager) -> Vec<Vec<BoundaryTag>> {
    let mut all = Vec::new();
    for c in 0..manager.region_count() {
        let chain = manager.chain(c);
        let mut tags = Vec::new();
        for index in 0..chain.len() {
            tags.push(chain.tag(index));
        }
        all.push(tags);
    }
    all
}

/// Size conservation and sentinel uniqueness, checked by hand on every chain.
fn check_regions(manager: &MemoryManager) {
    for c in 0..manager.region_count() {
        let chain = manager.chain(c);
        let region = chain.region();
        let mut free_sum = 0;
        let mut sentinels = 0;
        for index in 0..chain.len() {
            let tag = chain.tag(index);
            free_sum += tag.free_area_size();
            if tag.is_sentinel() {
                sentinels += 1;
                assert_eq!(index, chain.len() - 1);
                assert_eq!(tag.next_tag_addr(), None);
            }
        }
        assert_eq!(sentinels, 1);
        assert_eq!(free_sum + HEADER_SIZE * chain.len(), region.size());
    }
}

#[test]
fn test_manager_new() {
    let manager = MemoryManager::new(vec![
        MemoryRegion::new(BASE, SIZE),
        MemoryRegion::new(0x50_0000, 256),
    ]);
    assert_eq!(manager.region_count(), 2);
    assert_eq!(manager.chain(0).region(), MemoryRegion::new(BASE, SIZE));
    assert_eq!(manager.chain(1).region(), MemoryRegion::new(0x50_0000, 256));
    assert_eq!(
        snapshot(&manager),
        vec![
            vec![BoundaryTag::from_memory(BASE, SIZE)],
            vec![BoundaryTag::from_memory(0x50_0000, 256)],
        ]
    );
    check_regions(&manager);
}

#[test]
fn test_malloc() {
    let mut manager = single();
    const REQUEST: usize = 1024;
    let addr = manager.malloc(REQUEST);
    assert_eq!(addr.is_none(), false);
    let addr = addr.unwrap();
    assert_eq!(addr, BASE + SIZE - REQUEST);
    let block = manager.chain(0).tag(1);
    assert_eq!(block.addr_free_area(), addr);
    assert_eq!(block.is_alloc(), true);
    assert_eq!(block.free_area_size(), REQUEST);
    assert_eq!(manager.chain(0).tag(0).is_alloc(), false);
    assert_eq!(
        manager.chain(0).tag(0).free_area_size(),
        SIZE - 2 * HEADER_SIZE - REQUEST
    );
    check_regions(&manager);
}

#[test]
fn test_concrete_scenario() {
    let mut manager = single();

    let p = manager.malloc(1024);
    assert!(p.is_some());
    let p = p.unwrap();
    assert_eq!(p, BASE + 4096 - 1024);

    let before = snapshot(&manager);
    assert_eq!(manager.malloc(4096), None);
    assert_eq!(snapshot(&manager), before);

    manager.free(p);
    assert_eq!(snapshot(&manager), vec![vec![BoundaryTag::from_memory(BASE, SIZE)]]);
    assert_eq!(manager.chain(0).tag(0).free_area_size(), 4096 - HEADER_SIZE);

    // The whole region is one free block of 4096 - H bytes again. A request
    // for 4096 - 2H bytes needs all of them for the block and its header, so
    // the split is refused; one byte less is handed out.
    assert_eq!(manager.malloc(4096 - 2 * HEADER_SIZE), None);
    assert_eq!(snapshot(&manager), vec![vec![BoundaryTag::from_memory(BASE, SIZE)]]);
    let q = manager.malloc(4096 - 2 * HEADER_SIZE - 1);
    assert_eq!(q, Some(BASE + 2 * HEADER_SIZE + 1));
    assert_eq!(manager.chain(0).tag(0).free_area_size(), 1);
    check_regions(&manager);
}

#[test]
fn test_two_blocks_freed_first_then_second() {
    let mut manager = single();
    let a = manager.malloc(512).unwrap();
    let b = manager.malloc(512).unwrap();
    assert_eq!(a, BASE + SIZE - 512);
    assert_eq!(b, a - HEADER_SIZE - 512);
    manager.free(a);
    assert_eq!(manager.chain(0).len(), 3);
    check_regions(&manager);
    manager.free(b);
    assert_eq!(snapshot(&manager), vec![vec![BoundaryTag::from_memory(BASE, SIZE)]]);
    assert_eq!(manager.chain(0).tag(0).free_area_size(), SIZE - HEADER_SIZE);
    assert_eq!(manager.chain(0).tag(0).is_sentinel(), true);
}

#[test]
fn test_two_blocks_freed_second_then_first() {
    let mut manager = single();
    let a = manager.malloc(512).unwrap();
    let b = manager.malloc(512).unwrap();
    manager.free(b);
    assert_eq!(manager.chain(0).len(), 2);
    check_regions(&manager);
    manager.free(a);
    assert_eq!(snapshot(&manager), vec![vec![BoundaryTag::from_memory(BASE, SIZE)]]);
    assert_eq!(manager.chain(0).tag(0).free_area_size(), SIZE - HEADER_SIZE);
    assert_eq!(manager.chain(0).tag(0).is_sentinel(), true);
}

#[test]
fn test_malloc_then_free_restores_state() {
    let mut manager = MemoryManager::new(vec![
        MemoryRegion::new(BASE, 256),
        MemoryRegion::new(BASE + 256, SIZE),
    ]);
    let keep = manager.malloc(64).unwrap();
    let _other = manager.malloc(1000).unwrap();
    assert_eq!(manager.chain(0).tag(0).free_area_size(), 128);
    assert_eq!(manager.chain(1).tag(0).free_area_size(), 3032);
    for size in [0usize, 1, 50, 95, 128, 200, 2000, 2999] {
        let before = snapshot(&manager);
        let addr = manager.malloc(size).unwrap();
        assert_ne!(snapshot(&manager), before);
        manager.free(addr);
        assert_eq!(snapshot(&manager), before);
    }
    manager.free(keep);
    check_regions(&manager);
}

#[test]
fn test_malloc_without_candidate_changes_nothing() {
    let mut manager = single();
    let _a = manager.malloc(3000).unwrap();
    let before = snapshot(&manager);
    assert_eq!(manager.chain(0).tag(0).free_area_size(), 1032);
    for size in [SIZE, 1032, 1031, 1000, usize::MAX, usize::MAX - HEADER_SIZE] {
        assert_eq!(manager.malloc(size), None);
        assert_eq!(snapshot(&manager), before);
    }
    // 1000 bytes and a header are all that the free block has: refused.
    // 999 bytes leave it one byte.
    assert_eq!(manager.malloc(999), Some(BASE + HEADER_SIZE + 1 + HEADER_SIZE));
    assert_eq!(manager.chain(0).tag(0).free_area_size(), 1);
    check_regions(&manager);
}

#[test]
fn test_malloc_zero_bytes() {
    let mut manager = single();
    let addr = manager.malloc(0).unwrap();
    assert_eq!(addr, BASE + SIZE);
    let block = manager.chain(0).tag(1);
    assert_eq!(block.free_area_size(), 0);
    assert_eq!(block.is_alloc(), true);
    assert_eq!(block.addr(), BASE + SIZE - HEADER_SIZE);
    check_regions(&manager);
    manager.free(addr);
    assert_eq!(snapshot(&manager), vec![vec![BoundaryTag::from_memory(BASE, SIZE)]]);
}

#[test]
fn test_regions_are_scanned_in_the_order_given() {
    let small = MemoryRegion::new(0x1000, 256);
    let large = MemoryRegion::new(0x8000, 8192);
    let mut manager = MemoryManager::new(vec![small, large]);
    // Fits the first region.
    assert_eq!(manager.malloc(100), Some(0x1000 + 256 - 100));
    // The rest of the first region is too small; the second is used.
    assert_eq!(manager.chain(0).tag(0).free_area_size(), 256 - 2 * HEADER_SIZE - 100);
    assert_eq!(manager.malloc(100), Some(0x8000 + 8192 - 100));
    assert_eq!(manager.malloc(50), Some(0x1000 + 256 - 100 - HEADER_SIZE - 50));
    check_regions(&manager);

    let mut manager = MemoryManager::new(vec![large, small]);
    assert_eq!(manager.malloc(100), Some(0x8000 + 8192 - 100));
    assert_eq!(manager.malloc(100), Some(0x8000 + 8192 - 200 - HEADER_SIZE));
    assert_eq!(manager.chain(1).len(), 1);
}

#[test]
fn test_malloc_does_not_fall_through_to_the_next_region() {
    let mut manager = MemoryManager::new(vec![
        MemoryRegion::new(0x1000, 256),
        MemoryRegion::new(0x8000, 8192),
    ]);
    let before = snapshot(&manager);
    // The first region's block has 224 usable bytes: it fits a request for
    // 200 bytes but cannot be split for it. The second region is not tried.
    assert_eq!(manager.malloc(200), None);
    assert_eq!(manager.malloc(223), None);
    assert_eq!(manager.malloc(192), None);
    assert_eq!(snapshot(&manager), before);
    // A request that the first region does not fit goes to the second.
    assert_eq!(manager.malloc(224), Some(0x8000 + 8192 - 224));
    assert_eq!(manager.malloc(191), Some(0x1000 + 256 - 191));
    check_regions(&manager);
}

#[test]
fn test_free_finds_the_region_of_the_block() {
    let mut manager = MemoryManager::new(vec![
        MemoryRegion::new(0x1000, 256),
        MemoryRegion::new(0x8000, 8192),
    ]);
    let a = manager.malloc(100).unwrap();
    let b = manager.malloc(1000).unwrap();
    assert_eq!(manager.chain(0).len(), 2);
    assert_eq!(manager.chain(1).len(), 2);
    manager.free(b);
    assert_eq!(manager.chain(0).len(), 2);
    assert_eq!(manager.chain(1).len(), 1);
    manager.free(a);
    assert_eq!(
        snapshot(&manager),
        vec![
            vec![BoundaryTag::from_memory(0x1000, 256)],
            vec![BoundaryTag::from_memory(0x8000, 8192)],
        ]
    );
}

#[test]
fn test_free_of_an_unknown_address_changes_nothing() {
    let mut manager = single();
    let a = manager.malloc(100).unwrap();
    let before = snapshot(&manager);
    for addr in [0usize, 31, BASE, a + 1, a - HEADER_SIZE, BASE + SIZE, usize::MAX] {
        manager.free(addr);
        assert_eq!(snapshot(&manager), before);
    }
}

#[test]
fn test_free_twice_changes_nothing_more() {
    let mut manager = single();
    let a = manager.malloc(100).unwrap();
    let _b = manager.malloc(100).unwrap();
    manager.free(a);
    let once = snapshot(&manager);
    manager.free(a);
    assert_eq!(snapshot(&manager), once);
}

#[test]
fn test_free_coalesces_on_both_sides() {
    let mut manager = single();
    let a = manager.malloc(300).unwrap();
    let b = manager.malloc(300).unwrap();
    let c = manager.malloc(300).unwrap();
    let _d = manager.malloc(300).unwrap();
    // [free][d][c][b][a]
    manager.free(a);
    manager.free(c);
    assert_eq!(manager.chain(0).len(), 5);
    manager.free(b);
    // c, b and a are one block now, and it is the sentinel.
    assert_eq!(manager.chain(0).len(), 3);
    let joined = manager.chain(0).tag(2);
    assert_eq!(joined.addr_free_area(), c);
    assert_eq!(joined.free_area_size(), 3 * 300 + 2 * HEADER_SIZE);
    assert_eq!(joined.is_alloc(), false);
    assert_eq!(joined.is_sentinel(), true);
    check_regions(&manager);
    // The joined block is found again by a request that fits it only.
    let front_free = manager.chain(0).tag(0).free_area_size();
    assert!(front_free > 900);
    assert_eq!(manager.malloc(front_free), None);
}

#[test]
fn test_invariants_at_every_step() {
    let mut manager = MemoryManager::new(vec![
        MemoryRegion::new(0x1000, 1024),
        MemoryRegion::new(0x4000, 2048),
        MemoryRegion::new(0x9000, 512),
    ]);
    let mut live: Vec<usize> = Vec::new();
    let sizes = [100usize, 900, 40, 0, 300, 2000, 64, 64, 64, 700, 5, 450];
    for (step, size) in sizes.iter().enumerate() {
        match manager.malloc(*size) {
            Some(addr) => {
                assert!(!live.contains(&addr));
                live.push(addr);
            }
            None => {}
        }
        check_regions(&manager);
        if step % 2 == 1 && !live.is_empty() {
            let addr = live.remove(step % live.len());
            manager.free(addr);
            check_regions(&manager);
        }
    }
    for addr in live {
        manager.free(addr);
        check_regions(&manager);
    }
    assert_eq!(
        snapshot(&manager),
        vec![
            vec![BoundaryTag::from_memory(0x1000, 1024)],
            vec![BoundaryTag::from_memory(0x4000, 2048)],
            vec![BoundaryTag::from_memory(0x9000, 512)],
        ]
    );
}

#[test]
fn test_region_at_the_top_of_the_address_space() {
    let base = usize::MAX - 1024;
    let mut manager = MemoryManager::new(vec![MemoryRegion::new(base, 1024)]);
    let a = manager.malloc(0).unwrap();
    assert_eq!(a, usize::MAX);
    let b = manager.malloc(100).unwrap();
    assert_eq!(b, usize::MAX - HEADER_SIZE - 100);
    check_regions(&manager);
    manager.free(a);
    manager.free(b);
    assert_eq!(snapshot(&manager), vec![vec![BoundaryTag::from_memory(base, 1024)]]);
}
