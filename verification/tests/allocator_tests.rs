use wasabi::allocator::{region_summary_text, is_power_of_two_usize, round_up_to_nearest_pow2, FirstFitAllocator, Header, Layout, HEADER_SIZE};
use wasabi::uefi::{EfiMemoryDescriptor, EfiMemoryType, MemoryMapHolder};

#[test]
fn round_up_to_nearest_pow2_test() {
    assert_eq!(round_up_to_nearest_pow2(0), Err("Out of range"));
    assert_eq!(round_up_to_nearest_pow2(1), Ok(1));
    assert_eq!(round_up_to_nearest_pow2(2), Ok(2));
    assert_eq!(round_up_to_nearest_pow2(3), Ok(4));
    assert_eq!(round_up_to_nearest_pow2(4), Ok(4));
    assert_eq!(round_up_to_nearest_pow2(5), Ok(8));
    assert_eq!(round_up_to_nearest_pow2(6), Ok(8));
    assert_eq!(round_up_to_nearest_pow2(7), Ok(8));
    assert_eq!(round_up_to_nearest_pow2(8), Ok(8));
    assert_eq!(round_up_to_nearest_pow2(9), Ok(16));
}

#[test]
fn round_up_to_nearest_pow2_limits() {
    let top = 1usize << (usize::BITS - 1);
    assert_eq!(round_up_to_nearest_pow2(top), Ok(top));
    assert_eq!(round_up_to_nearest_pow2(top - 1), Ok(top));
    assert_eq!(round_up_to_nearest_pow2(top + 1), Err("Out of range"));
    assert_eq!(round_up_to_nearest_pow2(usize::MAX), Err("Out of range"));
    assert_eq!(round_up_to_nearest_pow2(1000), Ok(1024));
}

fn conventional(start: u64, pages: u64) -> EfiMemoryDescriptor {
    EfiMemoryDescriptor {
        memory_type: EfiMemoryType::CONVENTIONAL_MEMORY,
        physical_start: start,
        virtual_start: 0,
        number_of_pages: pages,
        attribute: 0,
    }
}

fn reserved(start: u64, pages: u64) -> EfiMemoryDescriptor {
    EfiMemoryDescriptor {
        memory_type: EfiMemoryType::RESERVED,
        physical_start: start,
        virtual_start: 0,
        number_of_pages: pages,
        attribute: 0,
    }
}

fn allocator_with(descs: &[EfiMemoryDescriptor]) -> FirstFitAllocator {
    let mut map = MemoryMapHolder::new();
    for d in descs {
        map.push(*d);
    }
    let mut a = FirstFitAllocator::new();
    a.init_with_mmap(&map);
    a
}

fn layout(size: usize, align: usize) -> Layout {
    Layout::from_size_align(size, align).expect("Failed to create Layout")
}

fn blocks(a: &FirstFitAllocator) -> Vec<(usize, usize, bool)> {
    a.headers().iter().map(|h| (h.addr, h.size, h.is_allocated)).collect()
}

#[test]
fn layout_validity() {
    assert!(Layout::from_size_align(10, 3).is_none());
    assert!(Layout::from_size_align(10, 0).is_none());
    assert!(Layout::from_size_align(isize::MAX as usize, 1).is_some());
    assert!(Layout::from_size_align(isize::MAX as usize, 2).is_none());
    assert!(Layout::from_size_align(isize::MAX as usize - 7, 8).is_some());
    let l = layout(1234, 64);
    assert_eq!(l.size(), 1234);
    assert_eq!(l.align(), 64);
    let p = Layout::page_4k();
    assert_eq!((p.size(), p.align()), (4096, 4096));
}

#[test]
fn init_keeps_conventional_memory_in_reverse_order() {
    let a = allocator_with(&[
        conventional(0x10_0000, 16),
        reserved(0x20_0000, 16),
        conventional(0x30_0000, 1),
        conventional(0x40_0000, 2),
    ]);
    // the reserved region and the single page are left out; the last region comes first
    assert_eq!(blocks(&a), vec![(0x40_0000, 0x2000, false), (0x10_0000, 0x10000, false)]);
}

#[test]
fn init_skips_the_null_page() {
    let a = allocator_with(&[conventional(0, 4), conventional(0x1_0000, 2)]);
    assert_eq!(blocks(&a), vec![(0x1_0000, 0x2000, false), (0x1000, 0x3000, false)]);
    let b = allocator_with(&[conventional(0, 2)]);
    assert_eq!(blocks(&b), vec![]);
}

#[test]
fn alloc_places_block_at_the_end_of_the_first_fitting_block() {
    let mut a = allocator_with(&[conventional(0x1000, 1), conventional(0x10_0000, 2)]);
    // one block: 0x100000..0x102000
    let p = a.alloc_with_options(layout(100, 8));
    // rounded size 128, alignment 32: placed at 0x102000 - 128
    assert_eq!(p, 0x102000 - 128);
    assert_eq!(
        blocks(&a),
        vec![
            (0x10_0000, 0x2000 - 128 - HEADER_SIZE, false),
            (0x102000 - 128 - HEADER_SIZE, 128 + HEADER_SIZE, true),
        ]
    );
}

#[test]
fn alloc_with_padding_after_the_block() {
    let mut a = allocator_with(&[conventional(0x10_0000, 2)]);
    // block 0x100000..0x102000; 128 bytes aligned to 1024: 0x101f80 rounds down to 0x101c00
    let p = a.alloc_with_options(layout(128, 1024));
    assert_eq!(p, 0x101c00);
    assert_eq!(
        blocks(&a),
        vec![
            (0x10_0000, 0x1c00 - HEADER_SIZE, false),
            (0x101c00 - HEADER_SIZE, 128 + HEADER_SIZE, true),
            (0x101c80, 0x102000 - 0x101c80, false),
        ]
    );
}

#[test]
fn alloc_fails_without_room() {
    let mut a = allocator_with(&[conventional(0x10_0000, 2)]);
    let before = blocks(&a);
    assert_eq!(a.alloc_with_options(layout(0x2000, 8)), 0);
    assert_eq!(a.alloc_with_options(layout(0, 8)), 0);
    assert_eq!(blocks(&a), before);
    let mut empty = FirstFitAllocator::new();
    assert_eq!(empty.alloc_with_options(layout(8, 8)), 0);
}

#[test]
fn malloc_align() {
    let mut a = allocator_with(&[conventional(0x10_0000, 16 * 1024)]);
    for align in [1, 2, 4, 8, 16, 32, 4096] {
        for _ in 0..100 {
            let p = a.alloc_with_options(layout(1234, align));
            assert!(p != 0);
            assert!(p % align == 0);
        }
    }
}

#[test]
fn malloc_align_random_order() {
    let mut a = allocator_with(&[conventional(0x10_0000, 16 * 1024)]);
    for align in [32, 4096, 8, 4, 16, 2, 1] {
        for _ in 0..100 {
            let p = a.alloc_with_options(layout(1234, align));
            assert!(p != 0);
        }
    }
}

#[test]
fn malloc_iterate_free_and_alloc() {
    let mut a = allocator_with(&[conventional(0x10_0000, 1024)]);
    for i in 1..1000usize {
        let l = layout(i * 4, 4);
        let p = a.alloc_with_options(l);
        assert!(p != 0);
        a.dealloc(p, layout(i * 4, 4));
    }
}

fn overlaps(a: (usize, usize), b: (usize, usize)) -> bool {
    a.0 < b.0 + b.1 && b.0 < a.0 + a.1
}

#[test]
fn allocated_objects_have_no_overlap() {
    let sizes_aligns: [(usize, usize); 34] = [
        (128, 128), (32, 32), (8, 8), (16, 16), (6000, 64), (4, 4), (2, 2), (600000, 64),
        (64, 64), (1, 1), (6000, 64), (6000, 64), (6000, 64), (6000, 64), (6000, 64), (6000, 64),
        (3, 64), (3, 64), (3, 64), (3, 64), (3, 64), (3, 64), (3, 64), (3, 64), (3, 64), (3, 64),
        (6000, 64), (6000, 64), (600000, 64), (6000, 64), (60000, 64), (60000, 64), (60000, 64),
        (60000, 64),
    ];
    let mut a = allocator_with(&[conventional(0x10_0000, 4096), conventional(0x200_0000, 1024)]);
    let mut regions: Vec<(usize, usize)> = Vec::new();
    for (size, align) in sizes_aligns.iter() {
        let p = a.alloc_with_options(layout(*size, *align));
        assert!(p != 0);
        assert!(p % align == 0);
        regions.push((p, *size));
    }
    let check = |regions: &Vec<(usize, usize)>| {
        for i in 0..regions.len() {
            for j in 0..regions.len() {
                if i != j {
                    assert!(!overlaps(regions[i], regions[j]));
                }
            }
        }
    };
    check(&regions);
    for i in (0..regions.len()).step_by(2) {
        let (size, align) = sizes_aligns[i];
        a.dealloc(regions[i].0, layout(size, align));
    }
    for i in (0..regions.len()).step_by(2) {
        let (size, align) = sizes_aligns[i];
        let p = a.alloc_with_options(layout(size, align));
        assert!(p != 0);
        regions[i] = (p, size);
    }
    check(&regions);
    // blocks never overlap either
    let bs = blocks(&a);
    for i in 0..bs.len() {
        for j in 0..bs.len() {
            if i != j {
                assert!(!overlaps((bs[i].0, bs[i].1), (bs[j].0, bs[j].1)));
            }
        }
    }
}

#[test]
fn dealloc_frees_exactly_the_block() {
    let mut a = allocator_with(&[conventional(0x10_0000, 4)]);
    let p = a.alloc_with_options(layout(64, 64));
    let q = a.alloc_with_options(layout(64, 64));
    assert!(p != 0 && q != 0 && p != q);
    let before = blocks(&a);
    a.dealloc(p, layout(64, 64));
    let after = blocks(&a);
    assert_eq!(before.len(), after.len());
    for (b, c) in before.iter().zip(after.iter()) {
        assert_eq!((b.0, b.1), (c.0, c.1));
        if b.0 + HEADER_SIZE == p {
            assert!(b.2 && !c.2);
        } else {
            assert_eq!(b.2, c.2);
        }
    }
    // the freed block is too small to serve the same request again (it needs
    // room for two headers and the alignment), so the next request is served
    // from the first block
    let r = a.alloc_with_options(layout(64, 64));
    assert!(r != 0 && r != p && r != q);
}

#[test]
fn freed_block_serves_smaller_requests() {
    let mut a = allocator_with(&[conventional(0x10_0000, 4)]);
    let p = a.alloc_with_options(layout(1024, 32));
    assert!(p != 0);
    a.dealloc(p, layout(1024, 32));
    // the list is: front part, freed block (1024 + 32 bytes); fill the front part first
    let mut got = Vec::new();
    loop {
        let r = a.alloc_with_options(layout(32, 32));
        if r == 0 {
            break;
        }
        got.push(r);
    }
    // some of the small blocks came from the freed block
    assert!(got.iter().any(|&r| r >= p - HEADER_SIZE && r < p + 1024));
}

#[test]
fn alloc_keeps_the_covered_memory() {
    let mut a = allocator_with(&[conventional(0x10_0000, 64), conventional(0x80_0000, 8)]);
    let covered = |a: &FirstFitAllocator| {
        let mut v: Vec<(usize, usize)> = blocks(a).iter().map(|b| (b.0, b.0 + b.1)).collect();
        v.sort();
        // merge adjacent ranges
        let mut out: Vec<(usize, usize)> = Vec::new();
        for r in v {
            if let Some(last) = out.last_mut() {
                if last.1 == r.0 {
                    last.1 = r.1;
                    continue;
                }
            }
            out.push(r);
        }
        out
    };
    let before = covered(&a);
    for (size, align) in [(100, 8), (5000, 4096), (3, 1), (20000, 64)] {
        let p = a.alloc_with_options(layout(size, align));
        assert!(p != 0);
        assert_eq!(covered(&a), before);
    }
}

#[test]
fn header_format() {
    let h = Header { addr: 0x1000, size: 0x20, is_allocated: true };
    let text: String = h.format().into_iter().collect();
    assert_eq!(text, "Header @ 0x0000000000001000 { size: 0x0000000000000020, is_allocated: true }");
    let f = Header { addr: 0xabc, size: 0x1_0000, is_allocated: false };
    let text: String = f.format().into_iter().collect();
    assert_eq!(text, "Header @ 0x0000000000000abc { size: 0x0000000000010000, is_allocated: false }");
}

#[test]
fn power_of_two_check() {
    assert!(!is_power_of_two_usize(0));
    assert!(is_power_of_two_usize(1));
    assert!(is_power_of_two_usize(4096));
    assert!(!is_power_of_two_usize(4097));
    assert!(is_power_of_two_usize(1usize << (usize::BITS - 1)));
    assert!(!is_power_of_two_usize(usize::MAX));
}

#[test]
fn blocks_stay_on_header_size_boundaries() {
    let mut a = allocator_with(&[conventional(0x10000, 16), conventional(0x40000, 8)]);
    let mut live = Vec::new();
    for (size, align) in [(1, 1), (100, 8), (33, 64), (700, 256), (5, 4096)] {
        let p = a.alloc_with_options(layout(size, align));
        assert!(p != 0);
        assert_eq!(p % align, 0);
        live.push((p, size, align));
        for (addr, size, _) in blocks(&a) {
            assert_eq!(addr % HEADER_SIZE, 0);
            assert_eq!(size % HEADER_SIZE, 0);
        }
    }
    let (p, size, align) = live[1];
    a.dealloc(p, layout(size, align));
    for (addr, size, _) in blocks(&a) {
        assert_eq!(addr % HEADER_SIZE, 0);
        assert_eq!(size % HEADER_SIZE, 0);
    }
}

#[test]
fn region_summary_line() {
    let text: String = region_summary_text(&conventional(0x10000, 16)).into_iter().collect();
    assert_eq!(text, "CONVENTIONAL: start=0x10000, pages=16, size=0x10000");
    let text: String = region_summary_text(&conventional(0, 3)).into_iter().collect();
    assert_eq!(text, "CONVENTIONAL: start=0x0, pages=3, size=0x3000");
}

#[test]
fn alloc_with_huge_size_and_small_alignment_finds_no_block() {
    let mut a = allocator_with(&[conventional(0x10000, 16)]);
    let before = blocks(&a);
    let p = a.alloc_with_options(layout(isize::MAX as usize - 1, 2));
    assert_eq!(p, 0);
    assert_eq!(blocks(&a), before);
}
