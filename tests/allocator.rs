use wasabi::allocator::round_up_to_nearest_pow2;
use wasabi::allocator::FirstFitAllocator;
use wasabi::allocator::Layout;
use wasabi::allocator::HEADER_SIZE;
use wasabi::uefi::pages_to_mib;
use wasabi::uefi::total_conventional_pages;
use wasabi::uefi::EfiMemoryDescriptor;
use wasabi::uefi::EfiMemoryType;

const HEAP_START: usize = 0x100000;
const HEAP_PAGES: u64 = 4096;

fn heap() -> FirstFitAllocator {
    let mut a = FirstFitAllocator::new();
    let map = [EfiMemoryDescriptor::new(
        EfiMemoryType::CONVENTIONAL_MEMORY,
        HEAP_START as u64,
        HEAP_PAGES,
    )];
    a.init_with_mmap(&map);
    a
}

fn layout(size: usize, align: usize) -> Layout {
    Layout::from_size_align(size, align).expect("Failed to create Layout")
}

#[test]
fn round_up_to_nearest_pow2_tests() {
    assert_eq!(round_up_to_nearest_pow2(0), Err("Out of range"));
    assert_eq!(round_up_to_nearest_pow2(1), Ok(1));
    assert_eq!(round_up_to_nearest_pow2(2), Ok(2));
    assert_eq!(round_up_to_nearest_pow2(3), Ok(4));
    assert_eq!(round_up_to_nearest_pow2(4), Ok(4));
    assert_eq!(round_up_to_nearest_pow2(5), Ok(8));
    assert_eq!(round_up_to_nearest_pow2(6), Ok(8));
    assert_eq!(round_up_to_nearest_pow2(7), Ok(8));
    assert_eq!(round_up_to_nearest_pow2(8), Ok(8));
    assert_eq!(round_up_to_nearest_pow2(9), Ok(16));
}

#[test]
fn round_up_to_nearest_pow2_limits() {
    let top = 1usize << (usize::BITS - 1);
    assert_eq!(round_up_to_nearest_pow2(top), Ok(top));
    assert_eq!(round_up_to_nearest_pow2(top - 1), Ok(top));
    assert_eq!(round_up_to_nearest_pow2(top + 1), Err("Out of range"));
    assert_eq!(round_up_to_nearest_pow2(usize::MAX), Err("Out of range"));
    assert_eq!(round_up_to_nearest_pow2(1000), Ok(1024));
}

#[test]
fn round_up_to_nearest_pow2_law() {
    for v in 1..5000usize {
        let r = round_up_to_nearest_pow2(v).unwrap();
        assert!(r.is_power_of_two());
        assert!(r >= v);
        assert!(r / 2 < v);
    }
}

#[test]
fn layout_from_size_align() {
    assert!(Layout::from_size_align(16, 0).is_none());
    assert!(Layout::from_size_align(16, 3).is_none());
    assert!(Layout::from_size_align(16, 12).is_none());
    assert!(Layout::from_size_align(usize::MAX, 8).is_none());
    let l = Layout::from_size_align(1234, 64).unwrap();
    assert_eq!(l.size(), 1234);
    assert_eq!(l.align(), 64);
}

#[test]
fn malloc_iterate_free_and_alloc() {
    let mut a = heap();
    for i in 1..1000usize {
        let p = a.alloc_with_options(layout(i, 8));
        assert!(p != 0);
        assert_eq!(p % HEADER_SIZE, 0);
        assert_eq!(a.is_allocated_at(p), Some(true));
        a.dealloc(p, layout(i, 8));
        assert_eq!(a.is_allocated_at(p), Some(false));
    }
}

#[test]
fn malloc_align() {
    let mut a = heap();
    let mut pointers = [0usize; 100];
    for align in [1, 2, 4, 8, 16, 32, 4096] {
        for e in pointers.iter_mut() {
            *e = a.alloc_with_options(layout(1234, align));
            assert!(*e != 0);
            assert!(*e % align == 0);
            assert!(*e % HEADER_SIZE == 0);
        }
    }
}

#[test]
fn malloc_align_random_order() {
    let mut a = heap();
    for align in [32, 4096, 8, 4, 16, 2, 1] {
        let mut pointers = [0usize; 100];
        for e in pointers.iter_mut() {
            *e = a.alloc_with_options(layout(1234, align));
            assert!(*e != 0);
            assert!(*e % align == 0);
        }
    }
}

fn fill(mem: &mut [u8], p: usize, size: usize, v: u8) {
    for k in 0..size {
        mem[p - HEAP_START + k] = v;
    }
}

fn holds(mem: &[u8], p: usize, size: usize, v: u8) -> bool {
    (0..size).all(|k| mem[p - HEAP_START + k] == v)
}

#[test]
fn allocated_objects_have_no_overlap() {
    let mut a = heap();
    let mut mem = vec![0u8; HEAP_PAGES as usize * 4096];
    let mut allocations = vec![
        layout(128, 128),
        layout(32, 32),
        layout(8, 8),
        layout(16, 16),
        layout(6000, 64),
        layout(4, 4),
        layout(2, 2),
        layout(600000, 64),
        layout(64, 64),
        layout(1, 1),
    ];
    for _ in 0..6 {
        allocations.push(layout(6000, 64));
    }
    for _ in 0..10 {
        allocations.push(layout(3, 64));
    }
    allocations.push(layout(6000, 64));
    allocations.push(layout(6000, 64));
    allocations.push(layout(600000, 64));
    allocations.push(layout(6000, 64));
    for _ in 0..4 {
        allocations.push(layout(60000, 64));
    }
    assert_eq!(allocations.len(), 34);
    let mut pointers = vec![0usize; allocations.len()];
    for (i, l) in allocations.iter().enumerate() {
        pointers[i] = a.alloc_with_options(*l);
        assert!(pointers[i] != 0);
        fill(&mut mem, pointers[i], l.size(), i as u8);
    }
    for (i, l) in allocations.iter().enumerate() {
        assert!(holds(&mem, pointers[i], l.size(), i as u8));
    }
    for i in (0..allocations.len()).step_by(2) {
        a.dealloc(pointers[i], allocations[i]);
    }
    for i in (1..allocations.len()).step_by(2) {
        assert!(holds(&mem, pointers[i], allocations[i].size(), i as u8));
    }
    for i in (0..allocations.len()).step_by(2) {
        pointers[i] = a.alloc_with_options(allocations[i]);
        assert!(pointers[i] != 0);
        fill(&mut mem, pointers[i], allocations[i].size(), i as u8);
    }
    for (i, l) in allocations.iter().enumerate() {
        assert!(holds(&mem, pointers[i], l.size(), i as u8));
    }
    for i in 0..pointers.len() {
        for j in 0..pointers.len() {
            if i != j {
                let (p, q) = (pointers[i], pointers[j]);
                assert!(p + allocations[i].size() <= q || q + allocations[j].size() <= p);
                assert!(p + allocations[i].size() <= q - HEADER_SIZE || q <= p);
            }
        }
    }
}

#[test]
fn oom_on_impossible_request() {
    let mut a = heap();
    let p = a.alloc_with_options(Layout { size: usize::MAX, align: 8 });
    assert_eq!(p, 0);
    let q = a.alloc_with_options(layout(16, 8));
    assert!(q != 0);
}

#[test]
fn oom_when_heap_is_too_small() {
    let mut a = heap();
    assert_eq!(a.alloc_with_options(layout(HEAP_PAGES as usize * 4096, 8)), 0);
    let mut empty = FirstFitAllocator::new();
    assert_eq!(empty.alloc_with_options(layout(8, 8)), 0);
}

#[test]
fn carves_from_the_tail() {
    let mut a = heap();
    let end = HEAP_START + HEAP_PAGES as usize * 4096;
    // 100 bytes round up to 128; the payload ends at the end of the heap.
    let p = a.alloc_with_options(layout(100, 8));
    assert_eq!(p, end - 128);
    // 32 bytes aligned to 4096: the highest 4096-aligned address with room for 32 bytes
    // below the previous chunk's header.
    let q = a.alloc_with_options(layout(32, 4096));
    assert_eq!(q, (p - HEADER_SIZE - 32) & !4095);
    // a zero-sized request is served with one header's worth of bytes.
    let r = a.alloc_with_options(layout(0, 1));
    assert!(r != 0);
    assert_eq!(r % HEADER_SIZE, 0);
    assert_eq!(r + HEADER_SIZE, q - HEADER_SIZE);
}

#[test]
fn freed_chunk_is_not_coalesced() {
    let mut a = heap();
    let p = a.alloc_with_options(layout(64, 8));
    a.dealloc(p, layout(64, 8));
    // the freed chunk holds exactly 64 bytes and a header: too small to serve 64 bytes again.
    let q = a.alloc_with_options(layout(64, 8));
    assert!(q != 0 && q != p);
    assert_eq!(a.is_allocated_at(p), Some(false));
    assert_eq!(a.is_allocated_at(q), Some(true));
}

#[test]
fn dealloc_of_unknown_pointer_changes_nothing() {
    let mut a = heap();
    let p = a.alloc_with_options(layout(64, 8));
    assert_eq!(a.is_allocated_at(p + 8), None);
    a.dealloc(p + 8, layout(64, 8));
    a.dealloc(8, layout(64, 8));
    assert_eq!(a.is_allocated_at(p), Some(true));
}

#[test]
fn init_skips_unusable_descriptors() {
    let mut a = FirstFitAllocator::new();
    let map = [
        // address 0: its first page is dropped, which leaves a single page: skipped.
        EfiMemoryDescriptor::new(EfiMemoryType::CONVENTIONAL_MEMORY, 0, 2),
        EfiMemoryDescriptor::new(EfiMemoryType::LOADER_DATA, 0x10000, 64),
        // a single page: skipped.
        EfiMemoryDescriptor::new(EfiMemoryType::CONVENTIONAL_MEMORY, 0x80000, 1),
    ];
    a.init_with_mmap(&map);
    assert_eq!(a.alloc_with_options(layout(8, 8)), 0);
}

#[test]
fn init_at_address_zero_skips_the_first_page() {
    let mut a = FirstFitAllocator::new();
    let map = [EfiMemoryDescriptor::new(EfiMemoryType::CONVENTIONAL_MEMORY, 0, 3)];
    a.init_with_mmap(&map);
    // the chunk is [0x1000, 0x3000): an 8192-byte request does not fit, a small one does.
    assert_eq!(a.alloc_with_options(layout(8000, 8)), 0);
    let p = a.alloc_with_options(layout(8, 8));
    assert_eq!(p, 0x3000 - 32);
    assert!(a.is_allocated_at(0x1000 + HEADER_SIZE).is_some());
}

#[test]
fn last_descriptor_heads_the_chain() {
    let mut a = FirstFitAllocator::new();
    let map = [
        EfiMemoryDescriptor::new(EfiMemoryType::CONVENTIONAL_MEMORY, 0x100000, 16),
        EfiMemoryDescriptor::new(EfiMemoryType::CONVENTIONAL_MEMORY, 0x200000, 16),
    ];
    a.init_with_mmap(&map);
    let p = a.alloc_with_options(layout(8, 8));
    assert_eq!(p, 0x200000 + 16 * 4096 - 32);
    // a request that only the first region can serve after the second is used up
    let q = a.alloc_with_options(layout(16 * 4096 - 4096, 8));
    assert_eq!(q, 0);
    let r = a.alloc_with_options(layout(32 * 1024, 8));
    assert!(r >= 0x200000 && r < 0x200000 + 16 * 4096);
}

#[test]
fn total_conventional_pages_counts_only_conventional() {
    let map = [
        EfiMemoryDescriptor::new(EfiMemoryType::CONVENTIONAL_MEMORY, 0, 256),
        EfiMemoryDescriptor::new(EfiMemoryType::BOOT_SERVICES_DATA, 0x100000, 100),
        EfiMemoryDescriptor::new(EfiMemoryType::CONVENTIONAL_MEMORY, 0x200000, 768),
    ];
    assert_eq!(total_conventional_pages(&map), 1024);
    assert_eq!(pages_to_mib(1024), 4);
    assert_eq!(pages_to_mib(255), 0);
    assert_eq!(total_conventional_pages(&[]), 0);
}

#[test]
fn earlier_allocations_stay_live() {
    let mut a = heap();
    let p = a.alloc_with_options(layout(100, 16));
    let q = a.alloc_with_options(layout(5000, 4096));
    let r = a.alloc_with_options(layout(7, 1));
    assert_eq!(a.is_allocated_at(p), Some(true));
    assert_eq!(a.is_allocated_at(q), Some(true));
    assert_eq!(a.is_allocated_at(r), Some(true));
    a.dealloc(q, layout(5000, 4096));
    assert_eq!(a.is_allocated_at(p), Some(true));
    assert_eq!(a.is_allocated_at(q), Some(false));
    assert_eq!(a.is_allocated_at(r), Some(true));
}
