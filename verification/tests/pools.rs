use pool_alloc::arena::{scan_word, Arena, WordScan};
use pool_alloc::bits;
use pool_alloc::layout::Layout;
use pool_alloc::pool::{AllocError, Attempt, Pool};
use pool_alloc::size_class::{
    class_of_align, class_of_request, class_of_size, class_to_search, default_pool_count,
    default_pool_size,
};
use pool_alloc::{BlockSize, MIN_POOL_SIZE, POOL_SCALE, SMALLEST_POOL};

const WORD: usize = usize::BITS as usize;

fn pool(block: usize, base: usize) -> Pool {
    Pool::allocate_pool(BlockSize::new(block).unwrap(), 32, Some(base)).unwrap()
}

#[test]
fn constants() {
    assert_eq!(SMALLEST_POOL, WORD);
    assert_eq!(MIN_POOL_SIZE, WORD * WORD * 8);
    assert!(MIN_POOL_SIZE.is_power_of_two() && MIN_POOL_SIZE >= 4096);
    assert_eq!(POOL_SCALE, 4 * WORD);
    assert!(POOL_SCALE <= 4096);
}

#[test]
fn block_sizes() {
    assert!(BlockSize::new(0).is_none());
    assert!(BlockSize::new(3).is_none());
    assert!(BlockSize::new(96).is_none());
    let top = 1usize << (WORD - 14);
    assert_eq!(BlockSize::new(top).unwrap().get(), top);
    assert!(BlockSize::new(top << 1).is_none());
    assert!(top <= (isize::MAX >> 12) as usize);
    let b = BlockSize::new(64).unwrap();
    assert_eq!(b, BlockSize::new_unchecked(64));
    assert_eq!(b.get(), 64);
    assert_eq!(b.ilog2(), 6);
    assert_eq!(BlockSize::new(1).unwrap().ilog2(), 0);
    assert_eq!(b.ceil_to(0), 0);
    assert_eq!(b.ceil_to(1), 64);
    assert_eq!(b.ceil_to(64), 64);
    assert_eq!(b.ceil_to(65), 128);
    assert_eq!(b.div_ceil_to(0), 0);
    assert_eq!(b.div_ceil_to(64), 1);
    assert_eq!(b.div_ceil_to(65), 2);
    assert_eq!(200usize / b, 3);
    assert_eq!(BlockSize::new(1).unwrap().expected_pool_size(), MIN_POOL_SIZE);
    assert_eq!(BlockSize::new(2 * WORD).unwrap().expected_pool_size(), 2 * WORD * POOL_SCALE);
    assert_eq!(BlockSize::new(4096).unwrap().expected_pool_size(), 4096 * POOL_SCALE);
}

#[test]
fn words() {
    assert_eq!(bits::trailing_zeros(0), usize::BITS);
    assert_eq!(bits::trailing_zeros(0b101000), 3);
    assert_eq!(bits::trailing_ones(0b100111), 3);
    assert_eq!(bits::trailing_ones(!0), usize::BITS);
    assert_eq!(bits::count_ones(0b1011), 3);
    assert_eq!(bits::count_ones(!0), usize::BITS);
    assert_eq!(bits::run_mask(3, 2), 0b11100);
    assert_eq!(bits::run_mask(0, 5), 0);
    assert_eq!(bits::run_mask(usize::BITS, 0), !0);
    assert_eq!(bits::run_mask(4, usize::BITS - 1), 1 << (WORD - 1));
    assert_eq!(bits::ilog2(1), 0);
    assert_eq!(bits::ilog2(1023), 9);
    assert_eq!(bits::ilog2(1024), 10);
    assert_eq!(bits::ilog2(!0), usize::BITS - 1);
    assert!(bits::is_power_of_two(1) && bits::is_power_of_two(4096));
    assert!(!bits::is_power_of_two(0) && !bits::is_power_of_two(12));
}

#[test]
fn runs_do_not_cross_words() {
    let mut arena = Arena::new(2);
    arena.mark(0, usize::BITS - 2);
    assert_eq!(arena.find_run(0, 2), Some(WORD - 2));
    assert_eq!(arena.find_run(0, 3), Some(WORD));
    assert_eq!(arena.find_run(0, 0), Some(0));
    assert_eq!(arena.find_run(3, usize::BITS), Some(WORD));
    arena.mark(WORD + 5, 1);
    assert_eq!(arena.find_run(0, usize::BITS), None);
    assert_eq!(arena.find_run(WORD, 6), Some(WORD + 6));
    assert_eq!(arena.count(), WORD - 1);
    arena.clear(WORD - 4, 4);
    assert_eq!(arena.count(), WORD - 3);
    // A run is cut off where its word ends.
    arena.clear(WORD - 5, usize::BITS);
    assert_eq!(arena.count(), WORD - 4);
    assert_eq!(arena.find_run(0, 5), Some(WORD - 5));
}

#[test]
fn layouts_are_checked() {
    assert!(Layout::from_size_align(1, 0).is_none());
    assert!(Layout::from_size_align(1, 3).is_none());
    assert!(Layout::from_size_align(isize::MAX as usize, 1).is_some());
    assert!(Layout::from_size_align(isize::MAX as usize, 2).is_none());
    assert!(Layout::from_size_align(0, 1 << (WORD - 1)).is_some());
    let l = Layout::from_size_align(10, 8).unwrap().pad_to_align();
    assert_eq!((l.size(), l.align()), (16, 8));
    let l = Layout::from_size_align_unchecked(16, 16).pad_to_align();
    assert_eq!((l.size(), l.align()), (16, 16));
}

#[test]
fn pool_layouts() {
    let l = Pool::layout_for_pool(BlockSize::new(4096).unwrap());
    assert_eq!((l.size(), l.align()), (4096 * POOL_SCALE, 4096));
    let none = Pool::allocate_pool(BlockSize::new(256).unwrap(), 32, None);
    assert_eq!(none.unwrap_err(), AllocError);
}

#[test]
fn default_pools() {
    let count = default_pool_count();
    let mut sizes = Vec::new();
    for class in 0..count {
        sizes.push(default_pool_size(class).unwrap().get());
    }
    if WORD == 64 {
        assert_eq!(sizes, vec![64, 256, 1024]);
    } else {
        assert_eq!(sizes, vec![32, 128, 512, 2048]);
    }
    assert!(default_pool_size(count).is_none());
    assert_eq!(class_of_size(0), 0);
    assert_eq!(class_of_size(3 * WORD), 0);
    assert_eq!(class_of_size(3 * WORD + 1), 1);
    assert_eq!(class_of_size(15 * WORD + 1), 2);
    assert_eq!(class_of_size(4096), count);
    assert_eq!(class_of_request(WORD, WORD), 0);
    assert_eq!(class_of_request(2 * WORD, 2 * WORD), 1);
    assert_eq!(class_of_align(1), 0);
    assert_eq!(class_of_align(WORD), 0);
    assert_eq!(class_of_align(2 * WORD), 1);
    assert_eq!(class_of_align(4 * WORD), 1);
    assert_eq!(class_of_align(8 * WORD), 2);
    assert_eq!(class_of_align(4096), count);
    assert_eq!(class_to_search(WORD - 1), 0);
    assert_eq!(class_to_search(4 * WORD - 1), 0);
    assert_eq!(class_to_search(4 * WORD), 1);
    assert_eq!(class_to_search(16 * WORD), 2);
    assert_eq!(class_to_search(4096), count);
}

#[test]
fn blocks_are_taken_and_given_back() {
    let mut p = pool(256, 0x40000);
    assert_eq!(p.block_len().get(), 256);
    assert_eq!(p.count_allocated(), 1);
    assert_eq!(p.try_allocate(0), Attempt::Block(0x40000 + 256));
    assert_eq!(p.count_allocated(), 1);
    assert_eq!(p.try_allocate(3), Attempt::Block(0x40000 + 256));
    assert_eq!(p.try_allocate(1), Attempt::Block(0x40000 + 4 * 256));
    assert_eq!(p.count_allocated(), 5);
    p.mark_deallocated(0x40000 + 256, 3);
    assert_eq!(p.count_allocated(), 2);
    assert_eq!(p.try_allocate(4), Attempt::Block(0x40000 + 5 * 256));
    assert_eq!(p.try_allocate(2), Attempt::Block(0x40000 + 256));
    assert_eq!(p.try_allocate(WORD), Attempt::Block(0x40000 + WORD * 256));
    assert_eq!(p.try_allocate(usize::MAX), Attempt::Null);
    assert_eq!(p.try_allocate(p_blocks(256) + 1), Attempt::Null);
}

fn p_blocks(block: usize) -> usize {
    BlockSize::new(block).unwrap().expected_pool_size() / block
}

#[test]
fn chains() {
    let size = BlockSize::new(1024).unwrap().expected_pool_size();
    let mut p = pool(1024, 0x100000);
    assert!(p.next_pool().is_none());
    for i in 1..p_blocks(1024) {
        assert_eq!(p.try_allocate(1), Attempt::Block(0x100000 + i * 1024));
    }
    assert_eq!(p.try_allocate(1), Attempt::Full);
    assert_eq!(p.allocate_next(None).unwrap_err(), AllocError);
    assert_eq!(p.extend(None), Err(AllocError));
    assert_eq!(p.try_allocate(1), Attempt::Full);
    let second = 0x100000 + 4 * size;
    assert_eq!(p.allocate_next(Some(second)).unwrap().first_block(), second + 1024);
    assert_eq!(p.try_allocate(1), Attempt::Block(second + 1024));
    let third = 0x100000 + 2 * size;
    // The next pool is there already: it stays as it is, and no region is needed.
    for region in [None, Some(third), Some(third)] {
        let next = p.allocate_next(region).unwrap();
        assert_eq!((next.first_block(), next.count_allocated()), (second + 1024, 2));
        assert_eq!(p.regions().len(), 2);
    }
    assert_eq!(p.extend(Some(third)), Ok(()));
    assert_eq!(p.next_pool().unwrap().count_allocated(), 3);
    assert_eq!(p.count_allocated(), p_blocks(1024) + 3);

    assert_eq!(p.find_alloc_for(0x100000).unwrap().count_allocated(), p_blocks(1024) + 3);
    assert_eq!(p.find_alloc_for(second + 1024).unwrap().count_allocated(), 3);
    assert_eq!(p.find_alloc_for(third + size - 1024).unwrap().count_allocated(), 1);
    assert!(p.find_alloc_for(second + 1).is_none());
    assert!(p.find_alloc_for(third + size).is_none());
    assert!(p.find_alloc_for(0).is_none());

    p.release(second + 1024, 1);
    assert_eq!(p.next_pool().unwrap().count_allocated(), 2);
    p.release(0x100000 + 1024, 1);
    assert_eq!(p.try_allocate(1), Attempt::Block(0x100000 + 1024));

    let bases: Vec<usize> = p.regions().iter().map(|r| r.base).collect();
    assert_eq!(bases, vec![third, second, 0x100000]);
    for r in p.regions() {
        assert_eq!((r.layout.size(), r.layout.align()), (size, 4096));
    }
}

#[test]
fn single_words() {
    assert_eq!(scan_word(0, 0, usize::BITS), WordScan::Fits);
    assert_eq!(scan_word(0b1000, 0, 3), WordScan::Fits);
    assert_eq!(scan_word(0b1000, 0, 4), WordScan::Skip(4));
    assert_eq!(scan_word(0b0111_0100, 0, 3), WordScan::Skip(3));
    assert_eq!(scan_word(0b0111_0100, 3, 1), WordScan::Fits);
    assert_eq!(scan_word(0b0111_0100, 3, 2), WordScan::Skip(7));
    assert_eq!(scan_word(!0, 5, 1), WordScan::Skip(usize::BITS));
}

#[test]
fn regions_of_a_chain() {
    let size = BlockSize::new(256).unwrap().expected_pool_size();
    let mut p = pool(256, 0x100000);
    assert_eq!(p.first_block(), 0x100000 + 256);
    assert!(p.lies_apart(0x100000 + size, size));
    assert!(p.lies_apart(0x100000 - 4096, 4096));
    assert!(!p.lies_apart(0x100000 - 4096, 4097));
    assert!(!p.lies_apart(0x100000 + size - 1, 1));
    p.extend(Some(0x100000 + 2 * size)).unwrap();
    assert!(!p.lies_apart(0x100000 + 2 * size, 1));
    assert!(p.lies_apart(0x100000 + size, size));
}
