use pool_alloc::alloc_view::MAX_RECORD_SIZE;
use pool_alloc::layout::Layout;
use pool_alloc::pooled_alloc::{AllocStep, DeallocStep, PooledAlloc};
use std::mem::{align_of, size_of};

/// Stands for the memory of a machine: pages are handed out one behind the other.
struct Memory {
    origin: usize,
    bytes: Vec<u8>,
    given_back: Vec<(usize, usize)>,
    limit: usize,
}

impl Memory {
    fn new() -> Self {
        Memory { origin: 0x10000, bytes: Vec::new(), given_back: Vec::new(), limit: 1 << 24 }
    }

    fn pages(&mut self, layout: Layout) -> Option<usize> {
        let mut end = self.origin + self.bytes.len();
        while end % layout.align() != 0 {
            end += 1;
        }
        if end + layout.size() - self.origin > self.limit {
            return None;
        }
        self.bytes.resize(end + layout.size() - self.origin, 0);
        Some(end)
    }

    fn write(&mut self, addr: usize, data: &[u8]) {
        let at = addr - self.origin;
        self.bytes[at..at + data.len()].copy_from_slice(data);
    }

    fn read(&self, addr: usize, len: usize) -> &[u8] {
        &self.bytes[addr - self.origin..addr - self.origin + len]
    }

    fn read_words(&self, addr: usize, count: usize) -> Vec<usize> {
        let size = size_of::<usize>();
        let mut words = Vec::new();
        for i in 0..count {
            let mut raw = [0u8; size_of::<usize>()];
            raw.copy_from_slice(self.read(addr + i * size, size));
            words.push(usize::from_ne_bytes(raw));
        }
        words
    }

    fn write_words(&mut self, addr: usize, words: &[usize]) {
        for (i, w) in words.iter().enumerate() {
            self.write(addr + i * size_of::<usize>(), &w.to_ne_bytes());
        }
    }
}

fn obtain(
    alloc: &mut PooledAlloc,
    memory: &mut Memory,
    layout: Layout,
    zeroed: bool,
) -> Option<(usize, usize)> {
    for _ in 0..4 {
        let step =
            if zeroed { alloc.allocate_zeroed(layout) } else { alloc.allocate(layout) };
        match step {
            AllocStep::Done { addr, len, zero } => {
                if zero {
                    memory.write(addr, &vec![0u8; len]);
                }
                return Some((addr, len));
            }
            AllocStep::Failed => return None,
            AllocStep::Busy => panic!("nobody else is at work"),
            AllocStep::Init { class, layout } => {
                let region = memory.pages(layout);
                if alloc.complete_init(class, region).is_err() {
                    return None;
                }
            }
            AllocStep::Grow { class, layout } => {
                let region = memory.pages(layout);
                if alloc.grow(class, region).is_err() {
                    return None;
                }
            }
            AllocStep::Forward(layout) => {
                return memory.pages(layout).map(|addr| (addr, layout.size()));
            }
        }
    }
    panic!("a request takes at most two regions");
}

fn give_back(alloc: &mut PooledAlloc, memory: &mut Memory, addr: usize, layout: Layout) {
    match alloc.deallocate(addr, layout) {
        DeallocStep::Done => {}
        DeallocStep::Forward(layout) => memory.given_back.push((addr, layout.size())),
    }
}

fn layout_of<T>() -> Layout {
    Layout::from_size_align(size_of::<T>(), align_of::<T>()).unwrap()
}

fn layout(size: usize, align: usize) -> Layout {
    Layout::from_size_align(size, align).unwrap()
}

/// A whole page, aligned as one.
fn page() -> Layout {
    layout(4096, 4096)
}

fn layouts() -> [Layout; 6] {
    [
        layout_of::<u8>(),
        layout_of::<[u8; 37]>(),
        layout_of::<[u64; 15]>(),
        page(),
        layout_of::<u16>(),
        layout_of::<[u16; 13]>(),
    ]
}

fn new_alloc() -> PooledAlloc {
    PooledAlloc::new(4 * size_of::<usize>())
}

#[test]
fn test_valid_alloc() {
    let mut alloc = new_alloc();
    let mut memory = Memory::new();
    for layout in layouts() {
        let Some((addr, len)) = obtain(&mut alloc, &mut memory, layout, false) else {
            panic!("there is memory enough");
        };
        assert!(layout.size() <= len, "Layout {layout:?}. Alloc: {addr:x}");
        assert!(addr % layout.align() == 0, "Layout {layout:?}. Alloc: {addr:x} ");
        give_back(&mut alloc, &mut memory, addr, layout);
    }
}

#[test]
fn test_alloc_zeroed() {
    let mut alloc = new_alloc();
    let mut memory = Memory::new();
    for layout in layouts() {
        // The memory that comes back is not clean.
        let (dirty, len) = obtain(&mut alloc, &mut memory, layout, false).unwrap();
        memory.write(dirty, &vec![0xA5u8; len]);
        give_back(&mut alloc, &mut memory, dirty, layout);

        let Some((addr, len)) = obtain(&mut alloc, &mut memory, layout, true) else {
            panic!("there is memory enough");
        };
        assert!(layout.size() <= len, "Layout {layout:?}. Alloc: {addr:x}");
        assert!(addr % layout.align() == 0, "Layout {layout:?}. Alloc: {addr:x}");
        for b in memory.read(addr, len) {
            assert_eq!(*b, 0);
        }
        give_back(&mut alloc, &mut memory, addr, layout);
    }
}

#[test]
fn test_box() {
    let mut alloc = new_alloc();
    let mut memory = Memory::new();
    let layout = layout_of::<[u8; 127]>();
    let (addr, _) = obtain(&mut alloc, &mut memory, layout, false).unwrap();
    memory.write(addr, &[0xFFu8; 127]);

    for b in memory.read(addr, 127) {
        assert_eq!(*b, 0xFF);
    }
    give_back(&mut alloc, &mut memory, addr, layout);
}

#[test]
fn test_repeated_allocs() {
    let mut alloc = new_alloc();
    let mut memory = Memory::new();
    let layout = layout_of::<[usize; 8]>();
    let mut boxes: Vec<usize> = Vec::new();
    for _ in 0..8 {
        let (addr, _) = obtain(&mut alloc, &mut memory, layout, false).unwrap();
        memory.write_words(addr, &[!0usize; 8]);
        boxes.push(addr);
    }

    for (v, addr) in boxes.iter().enumerate() {
        memory.write_words(*addr, &[v; 8]);
    }

    for (v, addr) in boxes.iter().enumerate() {
        assert_eq!(memory.read_words(*addr, 8), [v; 8]);
    }
}

#[test]
fn first_blocks_lie_behind_the_header() {
    let mut alloc = new_alloc();
    let mut memory = Memory::new();
    let word = usize::BITS as usize;
    // The bitmap of the smallest pool and a record of four words take two blocks.
    let (a, len) = obtain(&mut alloc, &mut memory, layout(1, 1), false).unwrap();
    assert_eq!((a, len), (0x10000 + 2 * word, word));
    let (b, len) = obtain(&mut alloc, &mut memory, layout(2 * word, 8), false).unwrap();
    assert_eq!((b, len), (0x10000 + 3 * word, 2 * word));
    give_back(&mut alloc, &mut memory, a, layout(1, 1));
    let (c, _) = obtain(&mut alloc, &mut memory, layout(1, 1), false).unwrap();
    assert_eq!(c, a);
}

#[test]
fn classes_by_size() {
    let mut alloc = new_alloc();
    let mut memory = Memory::new();
    let word = usize::BITS as usize;
    for (size, class, len) in [
        (1, 0, word),
        (word, 0, word),
        (3 * word, 0, 3 * word),
        (3 * word + 1, 1, 4 * word),
        (4 * word + 1, 1, 8 * word),
        (15 * word, 1, 16 * word),
        (15 * word + 1, 2, 16 * word),
        (16 * word + 1, 2, 32 * word),
    ] {
        let (addr, got) = obtain(&mut alloc, &mut memory, layout(size, 1), false).unwrap();
        assert_eq!(got, len, "size {size}");
        let (found, _) = alloc.find_pool_for_alloc(addr, size, 1).unwrap();
        assert_eq!(found, class, "size {size}");
    }
}

#[test]
fn alignment_raises_the_class() {
    let mut alloc = new_alloc();
    let mut memory = Memory::new();
    let word = usize::BITS as usize;
    let request = layout(1, 2 * word);
    let (addr, len) = obtain(&mut alloc, &mut memory, request, false).unwrap();
    assert_eq!(addr % (2 * word), 0);
    assert_eq!(len, 4 * word);
    assert_eq!(alloc.find_pool_for_alloc(addr, 1, 2 * word).unwrap().0, 1);
}

#[test]
fn large_requests_go_to_the_page_allocator() {
    let mut alloc = new_alloc();
    let mut memory = Memory::new();
    match alloc.allocate(layout(5000, 8)) {
        AllocStep::Forward(l) => assert_eq!((l.size(), l.align()), (5000, 8)),
        other => panic!("{other:?}"),
    }
    match alloc.allocate(layout(4097, 4096)) {
        AllocStep::Forward(l) => assert_eq!((l.size(), l.align()), (8192, 4096)),
        other => panic!("{other:?}"),
    }
    let (addr, _) = obtain(&mut alloc, &mut memory, layout(5000, 8), false).unwrap();
    give_back(&mut alloc, &mut memory, addr, layout(5000, 8));
    assert_eq!(memory.given_back, vec![(addr, 5000)]);
    let (addr, _) = obtain(&mut alloc, &mut memory, page(), false).unwrap();
    give_back(&mut alloc, &mut memory, addr, page());
    assert_eq!(memory.given_back, vec![(memory.given_back[0].0, 5000), (addr, 4096)]);
}

#[test]
fn over_aligned_requests_fail() {
    let mut alloc = new_alloc();
    assert!(matches!(alloc.allocate(layout(1, 8192)), AllocStep::Failed));
    assert!(matches!(alloc.allocate_zeroed(layout(1, 8192)), AllocStep::Failed));
}

#[test]
fn empty_requests_take_nothing() {
    let mut alloc = new_alloc();
    match alloc.allocate(layout(0, 16)) {
        AllocStep::Done { addr, len, .. } => assert_eq!((addr, len), (16, 0)),
        other => panic!("{other:?}"),
    }
    match alloc.allocate_zeroed(layout(0, 8192)) {
        AllocStep::Done { addr, len, zero } => assert_eq!((addr, len, zero), (8192, 0, false)),
        other => panic!("{other:?}"),
    }
    assert!(matches!(alloc.deallocate(16, layout(0, 16)), DeallocStep::Done));
    assert!(alloc.regions_to_give_up().is_empty());
}

#[test]
fn a_pool_is_set_up_by_one_at_a_time() {
    let mut alloc = new_alloc();
    let mut memory = Memory::new();
    let AllocStep::Init { class, layout: region } = alloc.allocate(layout(1, 1)) else {
        panic!("the pool is not there yet");
    };
    assert_eq!(class, 0);
    assert_eq!(region.align(), 4096);
    assert_eq!(region.size(), pool_alloc::MIN_POOL_SIZE);
    assert!(matches!(alloc.allocate(layout(1, 1)), AllocStep::Busy));
    // Another pool is not held up.
    assert!(matches!(
        alloc.allocate(layout(1000, 1)),
        AllocStep::Init { .. }
    ));
    assert!(alloc.complete_init(0, None).is_err());
    assert!(matches!(alloc.allocate(layout(1, 1)), AllocStep::Init { class: 0, .. }));
    let region = memory.pages(region);
    assert!(alloc.complete_init(0, region).is_ok());
    assert!(matches!(alloc.allocate(layout(1, 1)), AllocStep::Done { .. }));
    assert!(alloc.pool(0).is_some());
    assert!(alloc.pool(1).is_none());
}

#[test]
fn chains_grow_and_are_given_up_from_their_end() {
    let mut alloc = new_alloc();
    let mut memory = Memory::new();
    let word = usize::BITS as usize;
    let mut live: Vec<usize> = Vec::new();
    while alloc.regions_to_give_up().len() < 3 {
        let (addr, _) = obtain(&mut alloc, &mut memory, layout(word, 1), false).unwrap();
        assert!(!live.contains(&addr));
        live.push(addr);
    }
    obtain(&mut alloc, &mut memory, layout(16 * word, 1), false).unwrap();
    let pool = alloc.pool(0).unwrap();
    assert_eq!(pool.count_allocated(), live.len() + 3 * 2);
    let size = pool_alloc::MIN_POOL_SIZE;
    let regions = alloc.regions_to_give_up();
    let bases: Vec<usize> = regions.iter().map(|r| r.base).collect();
    // The region of the third default pool is not among them.
    assert!(alloc.pool(2).is_some());
    assert_eq!(bases, vec![0x10000 + 2 * size, 0x10000 + size, 0x10000]);
    assert!(regions.iter().all(|r| (r.layout.size(), r.layout.align()) == (size, 4096)));
    for addr in &live {
        give_back(&mut alloc, &mut memory, *addr, layout(word, 1));
    }
    assert_eq!(alloc.pool(0).unwrap().count_allocated(), 3 * 2);
    assert!(memory.given_back.is_empty());
}

#[test]
fn no_region_no_memory() {
    let mut alloc = new_alloc();
    let mut memory = Memory::new();
    memory.limit = pool_alloc::MIN_POOL_SIZE;
    let word = usize::BITS as usize;
    let mut count = 0;
    while obtain(&mut alloc, &mut memory, layout(word, 1), false).is_some() {
        count += 1;
    }
    assert_eq!(count, pool_alloc::MIN_POOL_SIZE / word - 2);
    assert_eq!(alloc.regions_to_give_up().len(), 1);
}

#[test]
fn memory_goes_back_to_the_pool_it_came_from() {
    let mut alloc = new_alloc();
    let mut memory = Memory::new();
    let word = usize::BITS as usize;
    for size in [1, 3 * word, 3 * word + 1, 10 * word, 20 * word, 31 * word] {
        let l = layout(size, 2);
        let (addr, _) = obtain(&mut alloc, &mut memory, l, false).unwrap();
        let (class, _) = alloc.find_pool_for_alloc(addr, size, 2).unwrap();
        let used = alloc.pool(class).unwrap().count_allocated();
        give_back(&mut alloc, &mut memory, addr, l);
        assert!(alloc.pool(class).unwrap().count_allocated() < used);
        let (again, _) = obtain(&mut alloc, &mut memory, l, false).unwrap();
        assert_eq!(again, addr);
    }
    assert!(memory.given_back.is_empty());
    assert!(alloc.find_pool_for_alloc(0x10, 1, 1).is_none());
}

#[test]
fn moves() {
    let grown = PooledAlloc::realloc(layout(10, 4), 30);
    assert_eq!((grown.layout.size(), grown.layout.align(), grown.copy), (30, 4, 10));
    let shrunk = PooledAlloc::realloc(layout(10, 4), 3);
    assert_eq!((shrunk.layout.size(), shrunk.layout.align(), shrunk.copy), (3, 4, 3));
}

#[test]
fn regions_are_checked() {
    let mut alloc = new_alloc();
    let size = pool_alloc::MIN_POOL_SIZE;
    assert!(!alloc.region_is_free(0, 0));
    assert!(!alloc.region_is_free(0, 0x10100));
    assert!(!alloc.region_is_free(0, usize::MAX - 4095));
    assert!(alloc.region_is_free(0, 0x10000));
    assert!(matches!(alloc.allocate(layout(1, 1)), AllocStep::Init { class: 0, .. }));
    assert!(alloc.complete_init(0, Some(0x100000)).is_ok());
    assert!(!alloc.region_is_free(1, 0x100000));
    assert!(!alloc.region_is_free(1, 0x100000 + size - 4096));
    assert!(alloc.region_is_free(1, 0x100000 + size));
}

#[test]
fn only_blocks_behind_the_header_can_be_given_back() {
    let mut alloc = new_alloc();
    let mut memory = Memory::new();
    let (addr, _) = obtain(&mut alloc, &mut memory, layout(1, 1), false).unwrap();
    let word = usize::BITS as usize;
    assert!(alloc.may_deallocate(addr, layout(1, 1)));
    assert!(!alloc.may_deallocate(addr - word, layout(1, 1)));
    // Not in a pool, or not at a block: the page allocator's.
    assert!(alloc.may_deallocate(addr + 1, layout(1, 1)));
    assert!(matches!(alloc.deallocate(addr + 1, layout(1, 1)), DeallocStep::Forward(_)));
    assert!(alloc.may_deallocate(0x8000, layout(1, 1)));
}

#[test]
fn memory_is_given_back_long_after() {
    let mut alloc = new_alloc();
    let mut memory = Memory::new();
    let word = usize::BITS as usize;
    let requests = [
        layout(64, 8),
        layout(3 * word, 1),
        layout(1, 2 * word),
        layout(5 * word + 1, 2),
        layout(20 * word, 16),
        layout(2 * word, 1),
    ];
    let mut boxes = Vec::new();
    for (v, l) in requests.iter().enumerate() {
        let (addr, len) = obtain(&mut alloc, &mut memory, *l, false).unwrap();
        memory.write(addr, &vec![v as u8; len]);
        boxes.push((addr, len, *l));
    }
    let used = |alloc: &PooledAlloc| -> usize {
        (0..3).map(|c| alloc.pool(c).unwrap().count_allocated()).sum()
    };
    // In another order, with requests in between.
    for v in [3, 0, 5, 1, 4, 2] {
        let (addr, len, l) = boxes[v];
        let extra = obtain(&mut alloc, &mut memory, layout(word, 1), true).unwrap();
        assert!(memory.read(addr, len).iter().all(|b| *b == v as u8));
        let (class, pool) = alloc.find_pool_for_alloc(addr, l.size(), l.align()).unwrap();
        let blocks = len / pool.block_len().get();
        let before = used(&alloc);
        assert!(alloc.may_deallocate(addr, l));
        give_back(&mut alloc, &mut memory, addr, l);
        assert_eq!(used(&alloc), before - blocks, "class {class}");
        give_back(&mut alloc, &mut memory, extra.0, layout(word, 1));
    }
    // Only the headers are left.
    assert_eq!(used(&alloc), 2 + 1 + 1);
    assert!(memory.given_back.is_empty());
}

#[test]
fn memory_goes_back_with_any_size_that_fits() {
    let mut alloc = new_alloc();
    let mut memory = Memory::new();
    let word = usize::BITS as usize;
    let block = alloc_block(2);
    for size in [1, 2 * word + 3, 3 * word + 1, 20 * word, 3 * block + 1, 4032] {
        let (addr, len) = obtain(&mut alloc, &mut memory, layout(size, 1), false).unwrap();
        let class = alloc.find_pool_for_alloc(addr, size, 1).unwrap().0;
        let blocks = len / alloc_block(class);
        give_back(&mut alloc, &mut memory, addr, layout(size, 1));
        for given in [size, size + 1, len - 1, len] {
            if !(size..=len).contains(&given) {
                continue;
            }
            let (again, _) = obtain(&mut alloc, &mut memory, layout(size, 1), false).unwrap();
            assert_eq!(again, addr);
            assert_eq!(alloc.find_pool_for_alloc(addr, given, 1).unwrap().0, class);
            assert!(alloc.may_deallocate(addr, layout(given, 1)));
            let used = alloc.pool(class).unwrap().count_allocated();
            give_back(&mut alloc, &mut memory, addr, layout(given, 1));
            assert_eq!(alloc.pool(class).unwrap().count_allocated(), used - blocks);
        }
    }
    assert!(memory.given_back.is_empty());
    // A page of a pool, given back as a page, stays with the pool; more than a bitmap word is
    // refused.
    let (addr, len) = obtain(&mut alloc, &mut memory, layout(4032, 1), false).unwrap();
    assert_eq!(len, 4096);
    assert!(!alloc.may_deallocate(addr, layout(word * 4096, 1)));
    assert!(matches!(alloc.deallocate(addr, layout(4096, 1)), DeallocStep::Done));
}

fn alloc_block(class: usize) -> usize {
    pool_alloc::size_class::default_pool_size(class).unwrap().get()
}

#[test]
fn large_records_move_the_first_block() {
    let word = usize::BITS as usize;
    for (record, slots) in [(0, 1), (1, 2), (word, 2), (2 * word, 3), (MAX_RECORD_SIZE, word - 1)] {
        let mut alloc = PooledAlloc::new(record);
        let mut memory = Memory::new();
        let (addr, _) = obtain(&mut alloc, &mut memory, layout(1, 1), false).unwrap();
        assert_eq!(addr, 0x10000 + slots * word, "record {record}");
        assert_eq!(alloc.pool(0).unwrap().count_allocated(), slots + 1);
        give_back(&mut alloc, &mut memory, addr, layout(1, 1));
        assert_eq!(alloc.pool(0).unwrap().count_allocated(), slots);
    }
}
