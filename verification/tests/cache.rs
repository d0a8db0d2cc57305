use cafs::cafs::cache::{Cache, CacheManager, CACHE_SIZE};
use cafs::fake::Disk;
use cafs::BlockDevice;

#[test]
fn test_cache_entry() {
    let mut disk = Disk::new(4);
    disk.write_block(2, &[9u8; 512]);
    let mut entry = Cache::new(2, &disk);
    assert_eq!(entry.block_id(), 2);
    assert_eq!(*entry.get_ref(), [9u8; 512]);
    assert_eq!(entry.read(8), 0x0909_0909_0909_0909);
    entry.sync(&mut disk);
    entry.modify(8, 1);
    assert_eq!(entry.read(8), 1);
    assert_eq!(disk.data[2], [9u8; 512]);
    entry.sync(&mut disk);
    assert_eq!(disk.data[2][8..16].to_vec(), vec![1, 0, 0, 0, 0, 0, 0, 0]);
    entry.get_mut()[0] = 5;
    entry.sync(&mut disk);
    assert_eq!(disk.data[2][0], 5);
}

#[test]
fn test_cache_writes_back_on_flush() {
    let mut cache = CacheManager::new(Disk::new(4));
    cache.write_block(1, &[7u8; 512]);
    cache.write_word(3, 16, 0xdead_beef);
    assert_eq!(cache.read_block(1), [7u8; 512]);
    assert_eq!(cache.read_word(3, 16), 0xdead_beef);
    assert_eq!(cache.device().data[1], [0u8; 512]);
    cache.flush();
    assert_eq!(cache.device().data[1], [7u8; 512]);
    let disk = cache.into_device();
    assert_eq!(disk.data[3][16..24].to_vec(), 0xdead_beefu64.to_le_bytes().to_vec());
    let mut fresh = CacheManager::new(disk);
    assert_eq!(fresh.read_block(1), [7u8; 512]);
    assert_eq!(fresh.read_word(3, 16), 0xdead_beef);
    assert_eq!(fresh.read_block(0), [0u8; 512]);
}

#[test]
fn test_cache_evicts_the_oldest_and_writes_it_back() {
    let blocks = 3 * CACHE_SIZE as u64;
    let mut cache = CacheManager::new(Disk::new(blocks));
    for id in 0..blocks {
        let slot = cache.get(id);
        assert!(slot < CACHE_SIZE);
        cache.write_block(id, &[id as u8 + 1; 512]);
    }
    assert_eq!(cache.device().data[0], [1u8; 512]);
    for id in 0..blocks {
        assert_eq!(cache.read_block(id), [id as u8 + 1; 512]);
    }
    cache.flush();
    let disk = cache.into_device();
    for id in 0..blocks {
        assert_eq!(disk.data[id as usize], [id as u8 + 1; 512]);
    }
}
