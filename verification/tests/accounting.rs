use cafs::cafs::layout::{Meta, SuperBlock, DIRECT_MAX};
use cafs::cafs::CAFS;
use cafs::fake::Disk;
use cafs::fs::Inode;

// 40960 blocks with 2 blocks of inode bitmap: 8192 record blocks, 7 blocks of
// data bitmap, and the data area from block 8202 on.
const DATA_START: u64 = 1 + 2 + 8192 + 7;

fn small_image() -> CAFS<Disk> {
    CAFS::init(Disk::new(40960), 40960, 2)
}

fn bytes_of(len: usize) -> Vec<u8> {
    (0..len).map(|i| (i % 251) as u8 + 1).collect()
}

fn new_file(fs: &mut CAFS<Disk>, name: &str) -> u64 {
    fs.create(0, name.to_string()).inode_number()
}

#[test]
fn test_write_keeps_the_blocks_it_had() {
    let mut fs = small_image();
    let id = new_file(&mut fs, "a");
    fs.write(id, &bytes_of(5 * 512));
    let first = fs.inode(id).blocks().clone();
    assert_eq!(
        first,
        vec![
            DATA_START + 1,
            DATA_START + 2,
            DATA_START + 3,
            DATA_START + 4,
            DATA_START + 5
        ]
    );
    fs.write(id, &bytes_of(9 * 512 + 1));
    let grown = fs.inode(id).blocks().clone();
    assert_eq!(grown.len(), 10);
    assert_eq!(grown[..5].to_vec(), first);
    fs.write(id, &bytes_of(3 * 512));
    let cut = fs.inode(id).blocks().clone();
    assert_eq!(cut, first[..3].to_vec());
    fs.write(id, &bytes_of(3 * 512 - 7));
    assert_eq!(fs.inode(id).blocks().clone(), cut);
}

#[test]
fn test_blocks_cut_off_are_free_again() {
    let mut fs = small_image();
    let id = new_file(&mut fs, "a");
    fs.write(id, &bytes_of(4 * 512));
    let held = fs.inode(id).blocks().clone();
    fs.write(id, &bytes_of(512));
    assert_eq!(fs.inode(id).blocks().clone(), held[..1].to_vec());
    // the three blocks that were cut off are the lowest free ones again
    let other = new_file(&mut fs, "b");
    fs.write(other, &bytes_of(3 * 512));
    let mut taken = fs.inode(other).blocks().clone();
    taken.sort();
    assert_eq!(taken, held[1..].to_vec());
    assert_eq!(fs.inode(id).blocks().clone(), held[..1].to_vec());
    assert_eq!(fs.data(id), bytes_of(512));
}

#[test]
fn test_written_blocks_hold_the_contents() {
    let mut fs = small_image();
    let id = new_file(&mut fs, "a");
    fs.write(id, &bytes_of(1024));
    let contents = bytes_of(700);
    fs.write(id, &contents);
    let ids = fs.inode(id).blocks().clone();
    assert_eq!(ids.len(), 2);
    fs.flush();
    let disk = fs.into_device();
    assert_eq!(disk.data[ids[0] as usize].to_vec(), contents[..512].to_vec());
    let last = disk.data[ids[1] as usize];
    assert_eq!(last[..188].to_vec(), contents[512..].to_vec());
    assert!(last[188..].iter().all(|b| *b == 0));
}

#[test]
fn test_df_follows_the_sizes() {
    let mut fs = small_image();
    let id = new_file(&mut fs, "a");
    let total = 7 * 4096 * 512;
    assert_eq!(fs.data_blocks_count(), 7 * 4096);
    assert_eq!(fs.df(), (total - 512, total));
    let sizes: [u64; 9] = [
        1,
        512,
        513,
        DIRECT_MAX,
        DIRECT_MAX + 1,
        100_000,
        DIRECT_MAX + 1,
        3,
        0,
    ];
    let mut size: u64 = 0;
    for next in sizes {
        let before = fs.df();
        fs.write(id, &bytes_of(next as usize));
        let after = fs.df();
        let had = CAFS::<Disk>::blocks_for(size);
        let has = CAFS::<Disk>::blocks_for(next);
        assert_eq!(after.1, before.1);
        assert_eq!(after.0 + 512 * has, before.0 + 512 * had);
        size = next;
    }
    assert_eq!(CAFS::<Disk>::blocks_for(DIRECT_MAX), 36);
    assert_eq!(CAFS::<Disk>::blocks_for(DIRECT_MAX + 1), 38);
    assert_eq!(CAFS::<Disk>::blocks_for(100_000), 196 + 1 + 3);
    assert_eq!(fs.df(), (total - 512, total));
}

#[test]
fn test_create_takes_blocks_for_the_directory_only() {
    let mut fs = small_image();
    assert_eq!(fs.free_blocks_count(), 7 * 4096);
    let a = new_file(&mut fs, "a");
    // ten bytes of directory contents: one block
    assert_eq!(fs.free_blocks_count(), 7 * 4096 - 1);
    assert!(fs.inode(a).blocks().is_empty());
    assert_eq!(fs.inode(0).blocks().clone(), vec![DATA_START]);
    let b = new_file(&mut fs, "b");
    // twenty-one bytes: the same block
    assert_eq!(fs.free_blocks_count(), 7 * 4096 - 1);
    assert!(fs.inode(b).blocks().is_empty());
    assert_eq!(fs.inode(0).blocks().clone(), vec![DATA_START]);
    assert_eq!(fs.free_inodes(), 2 * 4096 - 3);
    // a file written right after its creation finds the blocks it needs
    fs.write(b, &bytes_of(2000));
    assert_eq!(fs.free_blocks_count(), 7 * 4096 - 1 - 4);
    assert_eq!(fs.data(b), bytes_of(2000));
}

#[test]
fn test_superblock_is_zero_between_its_fields() {
    let disk = Disk {
        total_blocks: 40960,
        data: vec![[0xa5; 512]; 40960],
    };
    let fs = CAFS::init(disk, 40960, 2);
    let disk = fs.into_device();
    let block = disk.data[0];
    assert!(SuperBlock::decode(&block).is_valid());
    assert!(block[4..8].iter().all(|b| *b == 0));
    assert!(block[48..].iter().all(|b| *b == 0));
    assert_eq!(block[8..16].to_vec(), 40960u64.to_le_bytes().to_vec());
}

#[test]
fn test_has_root() {
    let fs = small_image();
    let mut disk = fs.into_device();
    assert!(CAFS::has_root(&disk));
    disk.data[1][0] = 0xfe;
    assert!(!CAFS::has_root(&disk));
    disk.data[1][0] = 0x01;
    assert!(CAFS::has_root(&disk));
    // an inode bitmap of no block has no inode
    disk.data[0][16..24].copy_from_slice(&0u64.to_le_bytes());
    assert!(!CAFS::has_root(&disk));
    assert!(!CAFS::has_root(&Disk::new(2)));
}

#[test]
fn test_growing_takes_the_lowest_free_blocks() {
    let mut fs = small_image();
    let id = new_file(&mut fs, "a");
    // 37 data blocks and one table: data first, then the index
    fs.write(id, &bytes_of(DIRECT_MAX as usize + 1));
    let data: Vec<u64> = (1..=37).map(|k| DATA_START + k).collect();
    assert_eq!(fs.inode(id).blocks().clone(), data);
    let (record, _) = fs.inode_pos_of(id);
    fs.flush();
    let disk = fs.into_device();
    let meta = Meta::decode(&disk.data[record as usize]).unwrap();
    assert_eq!(meta.size(), DIRECT_MAX + 1);
    assert_eq!(meta.indirect(), DATA_START + 38);
    assert_eq!(meta.direct().to_vec(), data[..36].to_vec());
    // the root directory took the first block of the data area
    let root = Meta::decode(&disk.data[3]).unwrap();
    assert_eq!(root.size(), 10);
    assert_eq!(root.direct()[0], DATA_START);
    assert_eq!(root.indirect(), 0);
}
