use wasabi::allocator::FirstFitAllocator;
use wasabi::header::{Header, HEADER_SIZE};
use wasabi::uefi::{EfiMemoryDescriptor, EfiMemoryType};

fn usable(start: u64, pages: u64) -> EfiMemoryDescriptor {
    EfiMemoryDescriptor::new(EfiMemoryType::ConventionalMemory, start, pages)
}

fn one_region() -> FirstFitAllocator {
    let mut allocator = FirstFitAllocator::new();
    allocator.init_with_mmap(&[usable(0x100000, 16)]);
    allocator
}

fn chain_of(allocator: &FirstFitAllocator) -> Vec<(usize, usize, bool)> {
    (0..allocator.len())
        .map(|i| {
            let h = allocator.header(i);
            (h.addr(), h.size(), h.is_allocated())
        })
        .collect()
}

#[test]
fn header_size_is_thirty_two() {
    assert_eq!(HEADER_SIZE, 32);
}

#[test]
fn first_allocation_is_inside_the_region_and_aligned() {
    let mut allocator = one_region();
    let p = allocator.alloc_with_options(64, 8);
    assert_ne!(p, 0);
    assert!(0x100000 <= p && p + 64 <= 0x110000);
    assert_eq!(p % 8, 0);
    assert_eq!(p, 0x10FFC0);
}

#[test]
fn second_allocation_does_not_overlap_the_first() {
    let mut allocator = one_region();
    let p = allocator.alloc_with_options(64, 8);
    let q = allocator.alloc_with_options(64, 8);
    assert_ne!(q, 0);
    assert_ne!(p, q);
    assert!(0x100000 <= q && q + 64 <= 0x110000);
    assert_eq!(q % 8, 0);
    assert!(q + 64 <= p || p + 64 <= q);
    assert_eq!(q, 0x10FF60);
}

#[test]
fn carve_without_gap_adds_one_allocated_header() {
    let mut allocator = one_region();
    assert_eq!(chain_of(&allocator), vec![(0x100000, 0x10000, false)]);
    allocator.alloc_with_options(64, 8);
    assert_eq!(
        chain_of(&allocator),
        vec![(0x100000, 0xFFA0, false), (0x10FFA0, 96, true)]
    );
}

#[test]
fn carve_with_gap_adds_padding_behind_the_allocated_header() {
    let mut allocator = one_region();
    let p = allocator.alloc_with_options(64, 4096);
    assert_eq!(p, 0x10F000);
    assert_eq!(
        chain_of(&allocator),
        vec![
            (0x100000, 0xEFE0, false),
            (0x10EFE0, 96, true),
            (0x10F040, 0xFC0, false),
        ]
    );
}

#[test]
fn small_requests_are_served_with_one_header_of_payload() {
    let mut allocator = one_region();
    let p = allocator.alloc_with_options(1, 1);
    assert_eq!(p, 0x110000 - 32);
    assert_eq!(
        chain_of(&allocator),
        vec![(0x100000, 0x10000 - 64, false), (0x110000 - 64, 64, true)]
    );
}

#[test]
fn sizes_are_rounded_up_to_a_power_of_two() {
    let mut allocator = one_region();
    let p = allocator.alloc_with_options(100, 8);
    assert_eq!(p, 0x110000 - 128);
    assert_eq!(allocator.header(1).size(), 128 + 32);
}

#[test]
fn empty_request_fails() {
    let mut allocator = one_region();
    assert_eq!(allocator.alloc_with_options(0, 8), 0);
    assert_eq!(chain_of(&allocator), vec![(0x100000, 0x10000, false)]);
}

#[test]
fn request_too_large_to_round_fails() {
    let mut allocator = one_region();
    assert_eq!(allocator.alloc_with_options(usize::MAX, 8), 0);
    assert_eq!(allocator.alloc_with_options(64, usize::MAX), 0);
    assert_eq!(chain_of(&allocator), vec![(0x100000, 0x10000, false)]);
}

#[test]
fn request_that_needs_the_whole_region_fails() {
    let mut allocator = one_region();
    // 0x10000 bytes of payload, two headers and the alignment do not fit.
    assert_eq!(allocator.alloc_with_options(0x10000, 8), 0);
    assert_eq!(allocator.alloc_with_options(0x8000 + 1, 8), 0);
    assert_eq!(chain_of(&allocator), vec![(0x100000, 0x10000, false)]);
    assert_ne!(allocator.alloc_with_options(0x8000, 8), 0);
}

#[test]
fn can_provide_counts_two_headers_and_the_alignment() {
    let mut allocator = FirstFitAllocator::new();
    allocator.init_with_mmap(&[usable(0x100000, 2)]);
    let h = allocator.header(0);
    assert_eq!(h.size(), 8192);
    // 4096 + 64 + 32 <= 8192
    assert!(h.can_provide(4096, 8));
    // 4096 + 64 + 4096 > 8192
    assert!(!h.can_provide(4096, 4096));
    // 8192 + 64 + 32 > 8192
    assert!(!h.can_provide(4097, 8));
    assert!(!h.can_provide(0, 8));
    // exactly at the bound: 4096 + 64 + 4032 == 8192
    assert!(h.can_provide(4096, 4032));
    assert!(!h.can_provide(4096, 4033));
}

#[test]
fn provide_carves_from_the_high_end() {
    let mut h = Header::free_region(0x2000, 0x1000);
    let split = h.provide(256, 64).unwrap();
    assert_eq!((h.addr(), h.size(), h.is_allocated()), (0x2000, 0x1000 - 288, false));
    assert_eq!(split.allocated.addr(), 0x3000 - 288);
    assert_eq!(split.allocated.size(), 288);
    assert!(split.allocated.is_allocated());
    assert_eq!(split.allocated.payload_addr(), 0x3000 - 256);
    assert!(split.padding.is_none());
}

#[test]
fn provide_fills_the_gap_with_free_padding() {
    let mut h = Header::free_region(0x2000, 0x1020);
    // end = 0x3020, top = 0x2F20, aligned down to 0x2F00.
    let split = h.provide(256, 256).unwrap();
    assert_eq!(split.allocated.payload_addr(), 0x2F00);
    assert_eq!(split.allocated.addr(), 0x2EE0);
    assert_eq!(split.allocated.end_addr(), 0x3000);
    let padding = split.padding.unwrap();
    assert_eq!((padding.addr(), padding.size(), padding.is_allocated()), (0x3000, 0x20, false));
    assert_eq!((h.addr(), h.size()), (0x2000, 0xEE0));
    assert_eq!(h.end_addr(), split.allocated.addr());
}

#[test]
fn provide_fails_on_an_allocated_header() {
    let mut h = Header::free_region(0x2000, 0x1000);
    h.set_allocated(true);
    assert!(!h.can_provide(64, 8));
    assert!(h.provide(64, 8).is_none());
    assert_eq!((h.addr(), h.size(), h.is_allocated()), (0x2000, 0x1000, true));
}

#[test]
fn provide_fails_when_the_region_is_too_small() {
    let mut h = Header::free_region(0x2000, 159);
    assert!(h.provide(64, 8).is_none());
    assert_eq!((h.addr(), h.size(), h.is_allocated()), (0x2000, 159, false));
    let mut h = Header::free_region(0x2000, 160);
    assert!(h.provide(64, 8).is_some());
}

#[test]
fn new_header_spans_nothing() {
    let h = Header::new_from_addr(0x4000);
    assert_eq!((h.addr(), h.size(), h.is_allocated()), (0x4000, 0, false));
    assert_eq!(h.end_addr(), 0x4000);
}

#[test]
fn blocks_are_never_coalesced() {
    let mut allocator = FirstFitAllocator::new();
    allocator.init_with_mmap(&[usable(0x100000, 2), usable(0x102000, 2)]);
    // Each region holds 8192 bytes; together they would hold 8192 bytes of
    // payload with room to spare, but no single one does.
    assert_eq!(allocator.alloc_with_options(8192, 8), 0);
    assert_eq!(
        chain_of(&allocator),
        vec![(0x102000, 8192, false), (0x100000, 8192, false)]
    );
    assert_ne!(allocator.alloc_with_options(4096, 8), 0);
    assert_ne!(allocator.alloc_with_options(4096, 8), 0);
    assert_eq!(allocator.alloc_with_options(4096, 8), 0);
}

#[test]
fn freed_neighbours_are_not_merged() {
    let mut allocator = FirstFitAllocator::new();
    allocator.init_with_mmap(&[usable(0x100000, 2)]);
    let p = allocator.alloc_with_options(2048, 8);
    let q = allocator.alloc_with_options(2048, 8);
    assert_ne!(p, 0);
    assert_ne!(q, 0);
    allocator.dealloc(p);
    allocator.dealloc(q);
    let before = chain_of(&allocator);
    assert!(before.iter().all(|b| !b.2));
    assert_eq!(before.iter().map(|b| b.1).sum::<usize>(), 8192);
    assert_eq!(allocator.alloc_with_options(4096, 8), 0);
    assert_eq!(chain_of(&allocator), before);
}

#[test]
fn region_at_address_zero_loses_its_first_page() {
    let mut allocator = FirstFitAllocator::new();
    allocator.init_with_mmap(&[usable(0, 16)]);
    assert_eq!(chain_of(&allocator), vec![(4096, 15 * 4096, false)]);
    loop {
        let p = allocator.alloc_with_options(1024, 8);
        if p == 0 {
            break;
        }
        assert!(p >= 4096 + 32);
        assert!(p + 1024 <= 16 * 4096);
    }
    assert!(chain_of(&allocator).iter().all(|b| b.0 >= 4096));
}

#[test]
fn small_regions_are_not_registered() {
    let mut allocator = FirstFitAllocator::new();
    allocator.init_with_mmap(&[
        usable(0x100000, 1),
        usable(0x200000, 0),
        usable(0, 2),
        usable(0, 1),
        usable(0, 0),
    ]);
    assert_eq!(allocator.len(), 0);
    assert_eq!(allocator.alloc_with_options(1, 1), 0);
    allocator.init_with_mmap(&[usable(0x100000, 2), usable(0, 3)]);
    assert_eq!(
        chain_of(&allocator),
        vec![(4096, 8192, false), (0x100000, 8192, false)]
    );
}

#[test]
fn only_conventional_memory_is_registered() {
    let mut allocator = FirstFitAllocator::new();
    allocator.init_with_mmap(&[
        EfiMemoryDescriptor::new(EfiMemoryType::Reserved, 0x100000, 16),
        EfiMemoryDescriptor::new(EfiMemoryType::LoaderCode, 0x200000, 16),
        EfiMemoryDescriptor::new(EfiMemoryType::BootServicesData, 0x300000, 16),
        usable(0x400000, 16),
        EfiMemoryDescriptor::new(EfiMemoryType::MemoryMappedIo, 0x500000, 16),
        EfiMemoryDescriptor::new(EfiMemoryType::PersistentMemory, 0x600000, 16),
    ]);
    assert_eq!(chain_of(&allocator), vec![(0x400000, 0x10000, false)]);
}

#[test]
fn newest_region_is_searched_first() {
    let mut allocator = FirstFitAllocator::new();
    allocator.init_with_mmap(&[usable(0x100000, 16), usable(0x200000, 16)]);
    assert_eq!(
        chain_of(&allocator),
        vec![(0x200000, 0x10000, false), (0x100000, 0x10000, false)]
    );
    let p = allocator.alloc_with_options(64, 8);
    assert!(0x200000 <= p && p < 0x210000);
    // Too large for what is left of the head: served from the older region.
    let q = allocator.alloc_with_options(0x8000, 8);
    assert!(0x200000 <= q && q < 0x210000);
    let r = allocator.alloc_with_options(0x8000, 8);
    assert!(0x100000 <= r && r < 0x110000);
}

#[test]
fn add_free_from_descriptor_prepends() {
    let mut allocator = FirstFitAllocator::new();
    allocator.add_free_from_descriptor(&usable(0x100000, 4));
    allocator.add_free_from_descriptor(&usable(0x300000, 1));
    allocator.add_free_from_descriptor(&usable(0x200000, 4));
    assert_eq!(
        chain_of(&allocator),
        vec![(0x200000, 0x4000, false), (0x100000, 0x4000, false)]
    );
}

#[test]
fn empty_memory_map_never_allocates() {
    let mut allocator = FirstFitAllocator::new();
    allocator.init_with_mmap(&[]);
    assert_eq!(allocator.len(), 0);
    for size in [1usize, 32, 64, 4096, 1 << 20] {
        for align in [1usize, 8, 32, 4096] {
            assert_eq!(allocator.alloc_with_options(size, align), 0);
        }
    }
    assert_eq!(allocator.len(), 0);
}

#[test]
fn dealloc_marks_the_block_free_and_keeps_it_in_the_chain() {
    let mut allocator = one_region();
    let p = allocator.alloc_with_options(64, 8);
    let q = allocator.alloc_with_options(64, 8);
    let before = chain_of(&allocator);
    assert_eq!(allocator.from_allocated_region(p), Some(2));
    assert_eq!(allocator.from_allocated_region(q), Some(1));
    allocator.dealloc(p);
    let mut expected = before.clone();
    expected[2].2 = false;
    assert_eq!(chain_of(&allocator), expected);
    // Freeing a free block changes nothing.
    allocator.dealloc(p);
    assert_eq!(chain_of(&allocator), expected);
}

#[test]
fn from_allocated_region_rejects_other_addresses() {
    let mut allocator = one_region();
    let p = allocator.alloc_with_options(64, 8);
    assert_eq!(allocator.from_allocated_region(p + 8), None);
    assert_eq!(allocator.from_allocated_region(p - 32), None);
    assert_eq!(allocator.from_allocated_region(0), None);
    assert_eq!(allocator.from_allocated_region(31), None);
    assert_eq!(allocator.from_allocated_region(0x100000), None);
    // The payload of the region header itself is a header boundary too.
    assert_eq!(allocator.from_allocated_region(0x100000 + 32), Some(0));
}

#[test]
fn freed_block_is_reused_only_when_the_search_reaches_it() {
    let mut allocator = FirstFitAllocator::new();
    allocator.init_with_mmap(&[usable(0x100000, 2)]);
    // 8192 bytes: 4096 + 32 for the first block, 2048 + 32 for the second.
    let p = allocator.alloc_with_options(4096, 8);
    assert_eq!(p, 0x101000);
    let q = allocator.alloc_with_options(2048, 8);
    assert_eq!(q, 0x1007E0);
    assert_eq!(
        chain_of(&allocator),
        vec![
            (0x100000, 0x7C0, false),
            (0x1007C0, 0x820, true),
            (0x100FE0, 0x1020, true),
        ]
    );
    allocator.dealloc(p);
    // The head still serves 1024 bytes, so the freed block is not reached.
    let r = allocator.alloc_with_options(1024, 8);
    assert_eq!(r, 0x1003C0);
    // The head is now too small; the search passes the allocated block and
    // carves the freed one.
    let s = allocator.alloc_with_options(1024, 8);
    assert_eq!(s, 0x101C00);
    assert!(p <= s && s + 1024 <= p + 4096);
    assert_eq!(
        chain_of(&allocator),
        vec![
            (0x100000, 0x3A0, false),
            (0x1003A0, 0x420, true),
            (0x1007C0, 0x820, true),
            (0x100FE0, 0xC00, false),
            (0x101BE0, 0x420, true),
        ]
    );
}

#[test]
fn descriptor_reports_its_fields() {
    let d = EfiMemoryDescriptor::new(EfiMemoryType::LoaderData, 0x1000, 7);
    assert_eq!(d.memory_type(), EfiMemoryType::LoaderData);
    assert_eq!(d.physical_start(), 0x1000);
    assert_eq!(d.number_of_pages(), 7);
    assert!(d.fits_address_space());
    assert_eq!(d.number_of_bytes(), 7 * 4096);
}

#[test]
fn descriptor_that_wraps_the_address_space_does_not_fit() {
    let pages = (usize::MAX / 4096) as u64;
    assert!(usable(0, pages).fits_address_space());
    assert!(usable(4095, pages).fits_address_space());
    assert!(!usable(4096, pages).fits_address_space());
    assert!(!usable(0, pages + 1).fits_address_space());
    assert!(!usable(0, u64::MAX).fits_address_space());
    assert!(!usable(u64::MAX, 1).fits_address_space());
}

#[test]
fn allocations_honour_large_alignments() {
    let mut allocator = one_region();
    for align in [1usize, 2, 4, 8, 16, 32, 64, 128, 256, 512, 1024, 2048, 4096] {
        let p = allocator.alloc_with_options(24, align);
        assert_ne!(p, 0);
        assert_eq!(p % align, 0);
        assert_eq!(p % 32, 0);
    }
}

#[test]
fn alignment_that_is_no_power_of_two_rounds_down_to_its_multiple() {
    let mut h = Header::free_region(0x100000, 0x10000);
    // end - size' = 0x10FFC0 = 23209 * 48 + 16
    let split = h.provide(64, 48).unwrap();
    assert_eq!(split.allocated.payload_addr(), 23209 * 48);
    assert_eq!(split.allocated.payload_addr() % 48, 0);
    let padding = split.padding.unwrap();
    assert_eq!(padding.size(), 16);
    assert_eq!(padding.end_addr(), 0x110000);
}

#[test]
fn headers_stay_on_header_boundaries_and_never_overlap() {
    let mut allocator = FirstFitAllocator::new();
    allocator.init_with_mmap(&[usable(0x100000, 16), usable(0, 8), usable(0x400000, 3)]);
    let mut live: Vec<(usize, usize)> = Vec::new();
    let sizes = [1usize, 24, 32, 33, 64, 100, 128, 500, 1000, 2048, 4096, 5000];
    let aligns = [1usize, 8, 16, 32, 64, 256, 4096];
    for round in 0..200 {
        let size = sizes[round % sizes.len()];
        let align = aligns[(round / 3) % aligns.len()];
        let p = allocator.alloc_with_options(size, align);
        if p != 0 {
            assert_eq!(p % align, 0);
            for (q, n) in &live {
                assert!(p + size <= *q || *q + *n <= p);
            }
            live.push((p, size));
        }
        if round % 5 == 4 && !live.is_empty() {
            let (q, _) = live.remove(round % live.len());
            allocator.dealloc(q);
        }
        let chain = chain_of(&allocator);
        for b in &chain {
            assert!(b.0 >= 4096);
            assert_eq!(b.0 % 32, 0);
            assert_eq!(b.1 % 32, 0);
            assert!(b.1 >= 32);
        }
        let mut spans: Vec<(usize, usize)> = chain.iter().map(|b| (b.0, b.0 + b.1)).collect();
        spans.sort();
        for pair in spans.windows(2) {
            assert!(pair[0].1 <= pair[1].0);
        }
        assert_eq!(chain.iter().map(|b| b.1).sum::<usize>(), (16 + 7 + 3) * 4096);
        for (q, _) in &live {
            let i = allocator.from_allocated_region(*q).unwrap();
            assert!(allocator.header(i).is_allocated());
        }
    }
    assert!(live.len() > 10);
}

#[test]
fn chain_only_grows() {
    let mut allocator = one_region();
    let mut addresses: Vec<usize> = Vec::new();
    for round in 0..50 {
        let p = allocator.alloc_with_options(40 + round, 8);
        if round % 2 == 1 && p != 0 {
            allocator.dealloc(p);
        }
        let now: Vec<usize> = chain_of(&allocator).iter().map(|b| b.0).collect();
        assert!(now.len() >= addresses.len());
        let mut rest = now.iter();
        for a in &addresses {
            assert!(rest.any(|b| b == a));
        }
        addresses = now;
    }
}

#[test]
fn header_size_bounds_what_a_block_can_serve() {
    // The smallest block that serves the smallest request: 32 + 64 + 32.
    let mut h = Header::free_region(0x1000, 128);
    assert!(h.can_provide(1, 1));
    let split = h.provide(1, 1).unwrap();
    assert_eq!((h.addr(), h.size()), (0x1000, 64));
    assert_eq!(
        (split.allocated.addr(), split.allocated.size()),
        (0x1040, 64)
    );
    assert!(split.padding.is_none());
    let h = Header::free_region(0x1000, 127);
    assert!(!h.can_provide(1, 1));
}
