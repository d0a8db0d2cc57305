use cafs::cafs::layout::{Meta, SuperBlock, DIRECT_MAX};
use cafs::cafs::{inode_number_binary, CaInode, CAFS};
use cafs::fake::Disk;
use cafs::fs::{Inode, InodeType};
use cafs::BLOCK_SIZE;

fn fake_fs() -> CAFS<Disk> {
    let total_blocks = 20 << 10;
    let inode_bitmap_blocks = 2;
    let disk = Disk::new(total_blocks);
    CAFS::init(disk, total_blocks, inode_bitmap_blocks)
}

fn image() -> CAFS<Disk> {
    CAFS::init(Disk::new(40960), 40960, 2)
}

fn pattern(len: usize) -> Vec<u8> {
    (0..len).map(|i| (i * 7 + i / 512 + 1) as u8).collect()
}

#[test]
fn test_fs_init() {
    let mut fs = fake_fs();
    let root: CaInode = fs.inode(0);
    assert_eq!(root.inode_number(), 0);
    assert!(root.inode_type() == InodeType::Dir);
    assert!(!root.is_file());
    assert_eq!(root.name(), "/");
    assert_eq!(root.size(), 0);
    assert_eq!(fs.sub_inodes(0), Vec::<u64>::new());
    assert!(fs.contains(0));
    assert!(!fs.contains(1));
    assert!(!fs.contains(u64::MAX));
}

#[test]
fn test_init_layout() {
    let mut fs = fake_fs();
    // 2 bitmap blocks of inodes, one record block for each of their 8192 bits;
    // of the 12285 blocks that are left, 2 are bitmap and 12283 are data.
    assert_eq!(fs.inode_pos_of(0), (3, 0));
    assert_eq!(fs.inode_pos_of(5), (8, 0));
    assert_eq!(fs.df(), (2 * 4096 * 512, 2 * 4096 * 512));
    assert_eq!(fs.alloc_data(), 1 + 2 + 8192 + 2);
    assert_eq!(fs.alloc_data(), 1 + 2 + 8192 + 2 + 1);
    assert_eq!(fs.df(), ((2 * 4096 - 2) * 512, 2 * 4096 * 512));
    fs.dealloc_data(1 + 2 + 8192 + 2);
    assert_eq!(fs.df(), ((2 * 4096 - 1) * 512, 2 * 4096 * 512));
    assert_eq!(fs.alloc_data(), 1 + 2 + 8192 + 2);
    fs.flush();
    let disk = fs.into_device();
    let sb = SuperBlock::decode(&disk.data[0]);
    assert!(sb.is_valid());
    assert_eq!(sb.total_blocks, 20480);
    assert_eq!(sb.inode_bitmap_blocks, 2);
    assert_eq!(sb.inode_area_blocks, 8192);
    assert_eq!(sb.data_bitmap_blocks, 2);
    assert_eq!(sb.data_area_blocks, 12283);
    assert_eq!(disk.data[1][0], 1);
    let root = Meta::decode(&disk.data[3]).unwrap();
    assert!(root.is_dir());
    assert_eq!(root.name()[..2].to_vec(), vec![b'/', 0]);
}

#[test]
fn test_inode_meta_data() {
    let contents = (0..u32::MAX >> 10)
        .flat_map(|x| x.to_le_bytes())
        .collect::<Vec<_>>();

    let total_blocks = 128 << 10;
    let inode_bitmap_blocks = 2;
    let disk = Disk {
        total_blocks,
        data: vec![[0; BLOCK_SIZE as usize]; total_blocks as usize],
    };
    let mut fs = CAFS::init(disk, total_blocks, inode_bitmap_blocks);
    let meta = fs.create(0, "test.txt".to_string());
    let inode_number = meta.inode_number();
    fs.write(inode_number, &contents);
    assert_eq!(fs.data(inode_number), contents);
}

#[test]
fn test_round_trip_small_file() {
    let mut fs = image();
    let created = fs.create(0, "test.txt".to_string());
    let n = created.inode_number();
    assert_eq!(n, 1);
    assert!(created.is_file());
    assert_eq!(created.size(), 0);
    assert_eq!(created.name(), "test.txt");
    fs.write(n, &Vec::from("Test File".as_bytes()));
    assert_eq!(
        fs.data(n),
        vec![0x54, 0x65, 0x73, 0x74, 0x20, 0x46, 0x69, 0x6C, 0x65]
    );
    let inode = fs.inode(n);
    assert_eq!(inode.size(), 9);
    assert_eq!(inode.name(), "test.txt");
    assert_eq!(inode.blocks().len(), 1);
    assert_eq!(inode.block_id(), 1 + 2 + 1);
}

#[test]
fn test_round_trip_large_file() {
    let mut fs = image();
    let n = fs.create(0, "large".to_string()).inode_number();
    let payload = pattern(16_384);
    let (free_before, total) = fs.df();
    fs.write(n, &payload);
    assert_eq!(fs.data(n), payload);
    assert_eq!(fs.inode(n).size(), 16_384);
    assert_eq!(Meta::index_blocks(16_384).index_block_count(), 0);
    assert_eq!(fs.df(), (free_before - 32 * 512, total));
}

#[test]
fn test_cross_direct_max() {
    let mut fs = image();
    let n = fs.create(0, "longer".to_string()).inode_number();
    let payload = pattern(18_944);
    let (free_before, total) = fs.df();
    fs.write(n, &payload);
    assert_eq!(fs.data(n), payload);
    assert_eq!(fs.inode(n).blocks().len(), 37);
    assert_eq!(fs.df(), (free_before - (37 + 1) * 512, total));
}

#[test]
fn test_shrink_gives_blocks_back() {
    let mut fs = image();
    let n = fs.create(0, "shrinking".to_string()).inode_number();
    let (free_empty, total) = fs.df();
    let long = pattern(3 * DIRECT_MAX as usize + 100);
    fs.write(n, &long);
    assert_eq!(fs.data(n), long);
    let blocks = Meta::_data_blocks(long.len() as u64)
        + Meta::index_blocks(long.len() as u64).index_block_count();
    assert_eq!(blocks, 109 + 3);
    assert_eq!(fs.df(), (free_empty - blocks * 512, total));
    let short = pattern(DIRECT_MAX as usize);
    fs.write(n, &short);
    assert_eq!(fs.data(n), short);
    assert_eq!(fs.df(), (free_empty - 36 * 512, total));
    fs.write(n, &vec![]);
    assert_eq!(fs.data(n), Vec::<u8>::new());
    assert_eq!(fs.df(), (free_empty, total));
    fs.write(n, &long);
    assert_eq!(fs.data(n), long);
    assert_eq!(fs.df(), (free_empty - blocks * 512, total));
}

#[test]
fn test_directory_listing() {
    let mut fs = image();
    let first = fs.create(0, "test.txt".to_string()).inode_number();
    fs.write(first, &Vec::from("Test File".as_bytes()));
    let second = fs.create(0, "hello".to_string()).inode_number();
    fs.write(second, &pattern(5000));
    let listed = fs.sub_inodes(0);
    assert_eq!(listed, vec![first, second]);
    assert!(listed.iter().all(|n| *n != 0));
    let mut expected = inode_number_binary(first).to_vec();
    expected.push(0);
    expected.extend_from_slice(&inode_number_binary(second));
    assert_eq!(fs.data(0), expected);
    assert_eq!(fs.sub_inodes(first), Vec::<u64>::new());
    assert_eq!(fs.data(first), Vec::from("Test File".as_bytes()));
    assert_eq!(fs.data(second), pattern(5000));
}

#[test]
fn test_create_twice_lists_both() {
    let mut fs = image();
    let first = fs.create(0, "same".to_string()).inode_number();
    let second = fs.create(0, "same".to_string()).inode_number();
    assert_ne!(first, second);
    assert_eq!(fs.sub_inodes(0), vec![first, second]);
}

#[test]
fn test_magic_check() {
    let blank = Disk::new(64);
    assert!(!CAFS::is_formatted(&blank));
    let mut fs = CAFS::init(Disk::new(5000), 5000, 1);
    fs.flush();
    let mut disk = fs.into_device();
    assert!(CAFS::is_formatted(&disk));
    disk.data[0][0] = 0x39;
    assert!(!CAFS::is_formatted(&disk));
}

#[test]
fn test_open_sees_what_was_flushed() {
    let mut fs = image();
    let n = fs.create(0, "kept".to_string()).inode_number();
    let payload = pattern(70_000);
    fs.write(n, &payload);
    let free = fs.df();
    fs.flush();
    let disk = fs.into_device();
    let mut again = CAFS::open(disk);
    assert_eq!(again.data(n), payload);
    assert_eq!(again.inode(n).name(), "kept");
    assert_eq!(again.sub_inodes(0), vec![n]);
    assert_eq!(again.df(), free);
    assert!(again.contains(n));
    assert!(!again.contains(n + 1));
}

#[test]
fn test_inode_cache_holds_more_files_than_slots() {
    let mut fs = image();
    let mut numbers = vec![];
    for i in 0..40u64 {
        let n = fs.create(0, format!("file{}", i)).inode_number();
        fs.write(n, &pattern(600 + i as usize));
        numbers.push(n);
    }
    for (i, n) in numbers.iter().enumerate() {
        assert_eq!(fs.data(*n), pattern(600 + i));
        assert_eq!(fs.inode(*n).name(), format!("file{}", i));
    }
    assert_eq!(fs.sub_inodes(0), numbers);
}

#[test]
fn test_what_fits() {
    assert!(CAFS::<Disk>::fits(40960, 2));
    assert!(!CAFS::<Disk>::fits(40960, 10));
    assert!(CAFS::<Disk>::fits(1 + 10 + 40960, 10));
    assert!(!CAFS::<Disk>::fits(10 + 40960, 10));
    assert!(!CAFS::<Disk>::fits(40960, 0));
    assert!(!CAFS::<Disk>::fits(u64::MAX, u64::MAX / 4096));
    assert_eq!(CAFS::<Disk>::blocks_for(0), 0);
    assert_eq!(CAFS::<Disk>::blocks_for(DIRECT_MAX), 36);
    assert_eq!(CAFS::<Disk>::blocks_for(DIRECT_MAX + 1), 38);
    let mut fs = image();
    assert_eq!(fs.free_inodes(), 2 * 4096 - 1);
    assert_eq!(fs.free_blocks_count(), 7 * 4096);
    assert!(fs.can_create(0, &"a".to_string()));
    assert!(!fs.can_create(1, &"a".to_string()));
    assert!(!fs.can_create(0, &"a".repeat(200)));
    assert!(fs.can_write(0, 7 * 4096 * 512 - 500 * 512));
    assert!(!fs.can_write(0, 7 * 4096 * 512));
    assert!(!fs.can_write(1, 1));
    let n = fs.create(0, "a".to_string()).inode_number();
    assert!(fs.can_write(n, 1));
    assert_eq!(fs.free_inodes(), 2 * 4096 - 2);
    assert_eq!(fs.free_blocks_count(), 7 * 4096 - 1);
}

#[test]
fn test_long_name_is_kept() {
    let mut fs = image();
    let name = "n".repeat(199);
    let inode = fs.alloc_inode_meta(InodeType::Dir, name.clone());
    assert_eq!(inode.name(), name);
    assert!(inode.inode_type() == InodeType::Dir);
    assert_eq!(fs.inode(inode.inode_number()).name(), name);
    let copy = fs.inode(inode.inode_number());
    fs.add_inode_cache(copy);
    assert_eq!(fs.inode(inode.inode_number()).name(), name);
}
