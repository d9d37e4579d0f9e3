use refer::mini_alloc::{index, AllocStep, MiniAllocator, BLOCK_SIZE, LEVELS};
use std::collections::BTreeMap;

/// A stand-in for the system allocator: hands out fresh, aligned address
/// ranges from a counter.
struct System {
    next: u64,
}

impl System {
    fn new() -> Self {
        System { next: 1 << 20 }
    }

    fn take(&mut self, size: u64, align: u64) -> u64 {
        let align = align.max(1);
        let addr = self.next.div_ceil(align) * align;
        self.next = addr + size.max(1);
        addr
    }
}

fn allocate(allocator: &mut MiniAllocator, system: &mut System, size: usize, align: usize) -> u64 {
    match allocator.allocate(size, align) {
        AllocStep::Global => system.take(size as u64, align as u64),
        AllocStep::Served { addr, .. } => addr,
        AllocStep::Refill { layout_level, level, sub } => {
            let bytes = 16u64 << level;
            let block = system.take(bytes, bytes);
            allocator.fill(layout_level, block, level, sub)
        }
    }
}

fn deallocate_slices(allocator: &mut MiniAllocator, slices: Vec<(u64, usize, usize)>) {
    for (addr, size, align) in slices {
        allocator.deallocate(addr, size, align);
    }
}

/// Expects that everything has been deallocated.
fn check_for_memory_leaks(allocator: &mut MiniAllocator) {
    assert_eq!(allocator.allocated(), allocator.capacity());
}

fn add_slices(
    allocator: &mut MiniAllocator,
    system: &mut System,
    memory: &mut BTreeMap<u64, u8>,
    n: usize,
    start: u8,
) -> Vec<(u64, usize, usize)> {
    let mut slices = Vec::new();
    let mut sum = start;
    for i in 0..n {
        let addr = allocate(allocator, system, i, 1);
        for byte in 0..i as u64 {
            memory.insert(addr + byte, sum);
            sum = sum.wrapping_add(1);
        }
        slices.push((addr, i, 1));
    }
    slices
}

fn validate_slices(slices: &[(u64, usize, usize)], memory: &BTreeMap<u64, u8>, start: u8) {
    let mut sum = start;
    for &(addr, size, _) in slices {
        for byte in 0..size as u64 {
            assert_eq!(memory.get(&(addr + byte)), Some(&sum));
            sum = sum.wrapping_add(1);
        }
    }
}

#[test]
fn test() {
    let mut allocator = MiniAllocator::new();
    let mut system = System::new();
    let mut ptrs = Vec::new();
    for i in 0..100usize {
        let size = i + 1;
        let align = (size + 1).next_power_of_two() / 2;
        let ptr = allocate(&mut allocator, &mut system, size, align);
        assert_eq!(ptr % align as u64, 0);
        ptrs.push((ptr, size, align));
    }

    deallocate_slices(&mut allocator, ptrs);

    check_for_memory_leaks(&mut allocator);
}

/// Allocate [u8], write to it different data, and repeat several times.
/// Then check that all data is correct.
#[test]
fn test_overlap() {
    let mut allocator = MiniAllocator::new();
    let mut system = System::new();
    let mut memory = BTreeMap::new();

    let slices = add_slices(&mut allocator, &mut system, &mut memory, 100, 0);
    validate_slices(&slices, &memory, 0);
    deallocate_slices(&mut allocator, slices);

    check_for_memory_leaks(&mut allocator);
}

#[test]
fn index_of_layouts() {
    assert_eq!(index(0, 1), 0);
    assert_eq!(index(1, 1), 0);
    assert_eq!(index(16, 1), 0);
    assert_eq!(index(17, 1), 1);
    assert_eq!(index(1, 64), 2);
    assert_eq!(index(100, 8), 3);
    assert_eq!(index(2048, 1), 7);
    assert_eq!(index(2049, 1), 8);
    assert_eq!(index(4096, 4096), 8);
}

#[test]
fn first_blocks_are_small() {
    let mut allocator = MiniAllocator::new();
    match allocator.allocate(8, 8) {
        AllocStep::Refill { layout_level, level, sub } => {
            assert_eq!(layout_level, 0);
            assert_eq!(level, 0);
            assert!(sub);
        }
        _ => panic!("an empty allocator must ask for a block"),
    }
}

#[test]
fn pages_after_a_page_was_taken() {
    let mut allocator = MiniAllocator::new();
    let mut system = System::new();
    while (allocator.allocated() as u64) < BLOCK_SIZE {
        allocate(&mut allocator, &mut system, 2048, 1);
    }
    loop {
        match allocator.allocate(16, 1) {
            AllocStep::Refill { level, sub, .. } => {
                assert_eq!(level, LEVELS);
                assert!(!sub);
                break;
            }
            AllocStep::Served { .. } => {}
            AllocStep::Global => panic!("a small layout went to the system allocator"),
        }
    }
}

#[test]
fn large_layouts_go_to_the_system() {
    let mut allocator = MiniAllocator::new();
    assert!(matches!(allocator.allocate(4096, 8), AllocStep::Global));
    assert_eq!(allocator.allocated(), 4096);
    assert!(!allocator.deallocate(1 << 30, 4096, 8));
    assert_eq!(allocator.allocated(), 0);
}

#[test]
fn freed_block_is_served_again() {
    let mut allocator = MiniAllocator::new();
    let mut system = System::new();
    let a = allocate(&mut allocator, &mut system, 32, 8);
    assert!(allocator.deallocate(a, 32, 8));
    match allocator.allocate(32, 8) {
        AllocStep::Served { addr, from } => {
            assert_eq!(addr, a);
            assert_eq!(from, 1);
        }
        _ => panic!("the freed block must be served"),
    }
}

#[test]
fn served_blocks_do_not_overlap() {
    let mut allocator = MiniAllocator::new();
    let mut system = System::new();
    let mut live: Vec<(u64, usize)> = Vec::new();
    for i in 0..300usize {
        let size = (i * 37) % 700 + 1;
        let addr = allocate(&mut allocator, &mut system, size, 1);
        live.push((addr, size));
        if i % 3 == 0 {
            let (a, s) = live.remove(0);
            assert!(allocator.deallocate(a, s, 1));
        }
    }
    let mut spans = live.iter().map(|&(a, s)| (a, a + s as u64)).collect::<Vec<_>>();
    spans.sort();
    for w in spans.windows(2) {
        assert!(w[0].1 <= w[1].0);
    }
}

#[test]
fn drain_gives_back_every_free_byte() {
    let mut allocator = MiniAllocator::new();
    let mut system = System::new();
    let mut ptrs = Vec::new();
    for i in 0..50usize {
        let size = i * 20 + 1;
        ptrs.push((allocate(&mut allocator, &mut system, size, 1), size, 1));
    }
    deallocate_slices(&mut allocator, ptrs);
    let capacity = allocator.capacity() as u64;
    let drained = allocator.drain();
    let bytes: u64 = drained
        .release
        .iter()
        .chain(drained.leaked.iter())
        .map(|&(_, level)| 16u64 << level)
        .sum();
    assert_eq!(bytes, capacity);
    assert_eq!(allocator.capacity(), 0);
}

#[test]
fn drained_blocks_do_not_overlap() {
    let mut allocator = MiniAllocator::new();
    let mut system = System::new();
    let mut ptrs = Vec::new();
    for i in 0..120usize {
        let size = (i * 53) % 900 + 1;
        ptrs.push((allocate(&mut allocator, &mut system, size, 1), size, 1));
    }
    let kept: Vec<_> = ptrs.iter().copied().step_by(4).collect();
    let freed: Vec<_> = ptrs.iter().copied().enumerate().filter(|(i, _)| i % 4 != 0).map(|(_, p)| p).collect();
    deallocate_slices(&mut allocator, freed);
    let drained = allocator.drain();
    let mut spans = drained
        .release
        .iter()
        .chain(drained.leaked.iter())
        .map(|&(addr, level)| (addr, addr + (16u64 << level)))
        .collect::<Vec<_>>();
    spans.sort();
    for w in spans.windows(2) {
        assert!(w[0].1 <= w[1].0);
    }
    for (addr, size, _) in kept {
        for &(start, end) in &spans {
            assert!(addr + size as u64 <= start || end <= addr);
        }
    }
}

#[test]
fn drain_coalesces_freed_pieces_into_their_page() {
    let mut allocator = MiniAllocator::new();
    let page = 1u64 << 24;
    let first = allocator.fill(0, page, LEVELS, false);
    assert_eq!(first, page);
    let second = match allocator.allocate(16, 16) {
        AllocStep::Served { addr, from } => {
            assert_eq!(from, 0);
            addr
        }
        _ => panic!("the piece left at level zero must be served"),
    };
    assert_eq!(second, page + 16);
    assert!(allocator.deallocate(first, 16, 16));
    assert!(allocator.deallocate(second, 16, 16));
    let drained = allocator.drain();
    assert_eq!(drained.release, vec![(page, LEVELS)]);
    assert!(drained.leaked.is_empty());
}

#[test]
fn freeing_a_served_block_restores_the_free_lists() {
    let mut allocator = MiniAllocator::new();
    let mut system = System::new();
    let a = allocate(&mut allocator, &mut system, 32, 8);
    let b = allocate(&mut allocator, &mut system, 32, 8);
    assert!(allocator.deallocate(a, 32, 8));
    assert!(allocator.deallocate(b, 32, 8));
    let capacity = allocator.capacity();
    let served = match allocator.allocate(32, 8) {
        AllocStep::Served { addr, from } => {
            assert_eq!(from, 1);
            addr
        }
        _ => panic!("a free block of the layout's level must be served"),
    };
    assert_eq!(served, b);
    assert_eq!(allocator.capacity(), capacity - 32);
    assert!(allocator.deallocate(served, 32, 8));
    assert_eq!(allocator.capacity(), capacity);
    match allocator.allocate(32, 8) {
        AllocStep::Served { addr, .. } => assert_eq!(addr, b),
        _ => panic!("the freed block must be served again"),
    }
}
