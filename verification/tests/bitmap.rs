use cafs::cafs::bitmap::{decompose, Bitmap};
use cafs::cafs::cache::CacheManager;
use cafs::fake::Disk;

#[test]
fn test_decompose() {
    assert_eq!(decompose(0), (0, 0, 0));
    assert_eq!(decompose(63), (0, 0, 63));
    assert_eq!(decompose(64), (0, 1, 0));
    assert_eq!(decompose(4095), (0, 63, 63));
    assert_eq!(decompose(4096), (1, 0, 0));
    assert_eq!(decompose(2 * 4096 + 5 * 64 + 7), (2, 5, 7));
}

#[test]
fn test_bitmap_allocates_lowest_first() {
    let mut cache = CacheManager::new(Disk::new(8));
    let bitmap = Bitmap::new(3, 2);
    assert_eq!(bitmap.start_block_id(), 3);
    assert_eq!(bitmap.blocks(), 2);
    assert_eq!(bitmap.total_count(), 2 * 4096);
    assert_eq!(bitmap.free_count(&mut cache), 2 * 4096);
    for expected in 0..130u64 {
        assert!(!bitmap.get(&mut cache, expected));
        assert_eq!(bitmap.allocate(&mut cache), Some(expected));
        assert!(bitmap.get(&mut cache, expected));
    }
    assert_eq!(bitmap.free_count(&mut cache), 2 * 4096 - 130);
    assert_eq!(cache.read_word(3, 0), u64::MAX);
    assert_eq!(cache.read_word(3, 8), u64::MAX);
    assert_eq!(cache.read_word(3, 16), 0b11);
    assert_eq!(cache.read_word(4, 0), 0);
    bitmap.dealloc(&mut cache, 70);
    bitmap.dealloc(&mut cache, 3);
    assert_eq!(bitmap.free_count(&mut cache), 2 * 4096 - 128);
    assert_eq!(cache.read_word(3, 0), u64::MAX - 8);
    assert_eq!(bitmap.allocate(&mut cache), Some(3));
    assert_eq!(bitmap.allocate(&mut cache), Some(70));
    assert_eq!(bitmap.allocate(&mut cache), Some(130));
}

#[test]
fn test_bitmap_runs_out() {
    let mut cache = CacheManager::new(Disk::new(2));
    let bitmap = Bitmap::new(1, 1);
    let mut seen = vec![];
    for _ in 0..4096 {
        seen.push(bitmap.allocate(&mut cache).unwrap());
    }
    assert_eq!(seen, (0..4096).collect::<Vec<u64>>());
    assert_eq!(bitmap.free_count(&mut cache), 0);
    assert_eq!(bitmap.allocate(&mut cache), None);
    bitmap.dealloc(&mut cache, 4095);
    assert_eq!(bitmap.free_count(&mut cache), 1);
    assert_eq!(bitmap.allocate(&mut cache), Some(4095));
    assert_eq!(bitmap.allocate(&mut cache), None);
    let empty = Bitmap::new(1, 0);
    assert_eq!(empty.total_count(), 0);
    assert_eq!(empty.free_count(&mut cache), 0);
    assert_eq!(empty.allocate(&mut cache), None);
}
