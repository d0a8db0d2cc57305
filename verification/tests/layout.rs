use cafs::cafs::layout::{
    ceil_div, IndirectBlock, IndirectBlockType, LevelInfo, Meta, SuperBlock,
    BLOCK_DIRECTORY_INDIRECT_MAX, BLOCK_DIRECTORY_MAX, BLOCK_TABLE_INDIRECT_MAX, BLOCK_TABLE_MAX,
    DIRECT_COUNT, DIRECT_MAX, FS_MAGIC, INDIRECT_LEN, L3_INDIRECT_MAX, L3_MAX, L4_INDIRECT_MAX,
    L4_MAX,
};
use cafs::fs::InodeType;
use cafs::BLOCK_SIZE;

#[test]
fn test_size_limits() {
    assert_eq!(INDIRECT_LEN as u64, BLOCK_SIZE / 8 - 1);
    assert_eq!(DIRECT_MAX, 36 * 512);
    assert_eq!(BLOCK_TABLE_INDIRECT_MAX, 63 * 512);
    assert_eq!(BLOCK_TABLE_MAX, DIRECT_MAX + 63 * 512);
    assert_eq!(BLOCK_DIRECTORY_INDIRECT_MAX, 63 * 63 * 512);
    assert_eq!(BLOCK_DIRECTORY_MAX, DIRECT_MAX + 63 * 63 * 512);
    assert_eq!(L3_INDIRECT_MAX, 63 * 63 * 63 * 512);
    assert_eq!(L3_MAX, DIRECT_MAX + 63 * 63 * 63 * 512);
    assert_eq!(L4_INDIRECT_MAX, 63 * 63 * 63 * 63 * 512);
    assert_eq!(L4_MAX, DIRECT_MAX + 63 * 63 * 63 * 63 * 512);
}

#[test]
fn test_ceil_div() {
    assert_eq!(ceil_div(0, 512), 0);
    assert_eq!(ceil_div(1, 512), 1);
    assert_eq!(ceil_div(512, 512), 1);
    assert_eq!(ceil_div(513, 512), 2);
    assert_eq!(ceil_div(u64::MAX, 512), (1 << 55));
    assert_eq!(Meta::_data_blocks(u64::MAX), 1 << 55);
}

#[test]
fn test_index_blocks_across_direct_max() {
    assert_eq!(
        Meta::index_blocks(18_944),
        LevelInfo {
            l4: 0,
            l3: 0,
            block_directory: 0,
            block_table: 1,
            direct: 36,
        }
    );
    assert_eq!(Meta::_data_blocks(18_944), 37);
    assert_eq!(Meta::index_blocks(16_384).index_block_count(), 0);
    assert_eq!(Meta::index_blocks(2 * BLOCK_DIRECTORY_MAX).index_block_count(), 1 + 3 + 127);
    assert_eq!(
        Meta::index_blocks(L4_MAX),
        LevelInfo {
            l4: 1,
            l3: 63,
            block_directory: 63 * 63,
            block_table: 63 * 63 * 63,
            direct: 36,
        }
    );
}

#[test]
fn test_level_info() {
    let info = LevelInfo {
        l4: 0,
        l3: 1,
        block_directory: 3,
        block_table: 127,
        direct: 36,
    };
    assert!(info.root_level() == Some(IndirectBlockType::L3));
    assert_eq!(info.type_count(IndirectBlockType::BlockTable), 127);
    assert_eq!(info.type_count(IndirectBlockType::BlockDirectory), 3);
    assert_eq!(info.type_count(IndirectBlockType::L3), 1);
    assert_eq!(info.type_count(IndirectBlockType::L4), 0);
    assert_eq!(info.index_block_count(), 131);
    assert!(Meta::index_blocks(10).root_level().is_none());
    assert!(Meta::index_blocks(DIRECT_MAX + 1).root_level() == Some(IndirectBlockType::BlockTable));
    assert!(
        Meta::index_blocks(BLOCK_TABLE_MAX + 1).root_level()
            == Some(IndirectBlockType::BlockDirectory)
    );
    assert!(Meta::index_blocks(L3_MAX + 1).root_level() == Some(IndirectBlockType::L4));
}

#[test]
fn test_indirect_block_type_steps() {
    assert!(IndirectBlockType::BlockTable.add() == IndirectBlockType::BlockDirectory);
    assert!(IndirectBlockType::BlockDirectory.add() == IndirectBlockType::L3);
    assert!(IndirectBlockType::L3.add() == IndirectBlockType::L4);
    assert!(IndirectBlockType::L4.add() == IndirectBlockType::L4);
    assert!(IndirectBlockType::L4.decrease() == IndirectBlockType::L3);
    assert!(IndirectBlockType::L3.decrease() == IndirectBlockType::BlockDirectory);
    assert!(IndirectBlockType::BlockDirectory.decrease() == IndirectBlockType::BlockTable);
    assert!(IndirectBlockType::BlockTable.decrease() == IndirectBlockType::BlockTable);
    assert_eq!(IndirectBlockType::BlockTable.tag(), 0);
    assert_eq!(IndirectBlockType::BlockDirectory.tag(), 1);
    assert_eq!(IndirectBlockType::L3.tag(), 2);
    assert_eq!(IndirectBlockType::L4.tag(), 3);
    assert!(IndirectBlockType::from_tag(4).is_none());
    assert!(InodeType::from_tag(0) == Some(InodeType::File));
    assert!(InodeType::from_tag(1) == Some(InodeType::Dir));
    assert!(InodeType::from_tag(2).is_none());
}

#[test]
fn test_superblock_layout() {
    let mut sb = SuperBlock {
        magic: 0,
        total_blocks: 0,
        inode_bitmap_blocks: 0,
        inode_area_blocks: 0,
        data_bitmap_blocks: 0,
        data_area_blocks: 0,
    };
    assert!(!sb.is_valid());
    sb.initialize(40960, 2, 8192, 7, 32758);
    assert!(sb.is_valid());
    assert_eq!(sb.magic, FS_MAGIC);
    assert_eq!(FS_MAGIC, 0x5138);
    let bytes = sb.encode();
    assert_eq!(bytes[0..4].to_vec(), vec![0x38, 0x51, 0, 0]);
    assert_eq!(bytes[4..8].to_vec(), vec![0, 0, 0, 0]);
    assert_eq!(bytes[8..16].to_vec(), 40960u64.to_le_bytes().to_vec());
    assert_eq!(bytes[16..24].to_vec(), 2u64.to_le_bytes().to_vec());
    assert_eq!(bytes[24..32].to_vec(), 8192u64.to_le_bytes().to_vec());
    assert_eq!(bytes[32..40].to_vec(), 7u64.to_le_bytes().to_vec());
    assert_eq!(bytes[40..48].to_vec(), 32758u64.to_le_bytes().to_vec());
    assert!(bytes[48..].iter().all(|b| *b == 0));
    let back = SuperBlock::decode(&bytes);
    assert!(back.is_valid());
    assert_eq!(back.total_blocks, 40960);
    assert_eq!(back.inode_bitmap_blocks, 2);
    assert_eq!(back.inode_area_blocks, 8192);
    assert_eq!(back.data_bitmap_blocks, 7);
    assert_eq!(back.data_area_blocks, 32758);
    assert!(!SuperBlock::decode(&[0u8; 512]).is_valid());
}

#[test]
fn test_meta_layout() {
    let mut name = [0u8; 200];
    name[..3].copy_from_slice(b"abc");
    let mut meta = Meta::new(InodeType::Dir, name);
    assert_eq!(meta.size(), 0);
    assert_eq!(meta.indirect(), 0);
    assert_eq!(meta.direct().to_vec(), vec![0u64; 36]);
    assert!(meta.is_dir());
    assert!(!meta.is_file());
    assert!(meta.type_() == InodeType::Dir);
    assert_eq!(meta.name(), name);
    assert_eq!(meta.data_blocks(), 0);
    let bytes = meta.encode();
    assert_eq!(bytes[304..312].to_vec(), 1u64.to_le_bytes().to_vec());
    assert_eq!(bytes[312..315].to_vec(), b"abc".to_vec());
    assert!(bytes[..304].iter().all(|b| *b == 0));
    let back = Meta::decode(&bytes).unwrap();
    assert!(back.is_dir());
    assert_eq!(back.name(), name);
    meta.init(InodeType::File, [7u8; 200]);
    assert!(meta.is_file());
    assert_eq!(meta.name(), [7u8; 200]);
    let mut bad = bytes;
    bad[304] = 2;
    assert!(Meta::decode(&bad).is_none());
}

#[test]
fn test_indirect_block_layout() {
    let mut entries = [0u64; 63];
    for (i, e) in entries.iter_mut().enumerate() {
        *e = 1000 + i as u64;
    }
    let block = IndirectBlock {
        entries,
        type_: IndirectBlockType::L3,
    };
    let bytes = block.encode();
    assert_eq!(bytes[0..8].to_vec(), 1000u64.to_le_bytes().to_vec());
    assert_eq!(bytes[496..504].to_vec(), 1062u64.to_le_bytes().to_vec());
    assert_eq!(bytes[504..512].to_vec(), 2u64.to_le_bytes().to_vec());
    let back = IndirectBlock::decode(&bytes).unwrap();
    assert_eq!(back.entries, entries);
    assert!(back.type_ == IndirectBlockType::L3);
    let mut bad = bytes;
    bad[504] = 9;
    assert!(IndirectBlock::decode(&bad).is_none());
}

#[test]
fn test_index_blocks() {
    assert_eq!(
        Meta::index_blocks(0),
        LevelInfo {
            l4: 0,
            l3: 0,
            block_directory: 0,
            block_table: 0,
            direct: 0,
        }
    );
    assert_eq!(
        Meta::index_blocks(10),
        LevelInfo {
            l4: 0,
            l3: 0,
            block_directory: 0,
            block_table: 0,
            direct: 1,
        }
    );
    assert_eq!(
        Meta::index_blocks(BLOCK_SIZE - 1),
        LevelInfo {
            l4: 0,
            l3: 0,
            block_directory: 0,
            block_table: 0,
            direct: 1,
        }
    );
    assert_eq!(
        Meta::index_blocks(BLOCK_SIZE),
        LevelInfo {
            l4: 0,
            l3: 0,
            block_directory: 0,
            block_table: 0,
            direct: 1,
        }
    );
    assert_eq!(
        Meta::index_blocks(BLOCK_SIZE + 1),
        LevelInfo {
            l4: 0,
            l3: 0,
            block_directory: 0,
            block_table: 0,
            direct: 2,
        }
    );
    assert_eq!(
        Meta::index_blocks(DIRECT_MAX - 10),
        LevelInfo {
            l4: 0,
            l3: 0,
            block_directory: 0,
            block_table: 0,
            direct: DIRECT_COUNT as u64,
        }
    );
    assert_eq!(
        Meta::index_blocks(DIRECT_MAX),
        LevelInfo {
            l4: 0,
            l3: 0,
            block_directory: 0,
            block_table: 0,
            direct: DIRECT_COUNT as u64,
        }
    );
    assert_eq!(
        Meta::index_blocks(DIRECT_MAX + 1),
        LevelInfo {
            l4: 0,
            l3: 0,
            block_directory: 0,
            block_table: 1,
            direct: DIRECT_COUNT as u64,
        }
    );
    let size = BLOCK_TABLE_MAX;
    assert_eq!(
        Meta::index_blocks(size),
        LevelInfo {
            l4: 0,
            l3: 0,
            block_directory: 0,
            block_table: 1,
            direct: DIRECT_COUNT as u64,
        }
    );
    let size = BLOCK_TABLE_MAX + 1;
    assert_eq!(
        Meta::index_blocks(size),
        LevelInfo {
            l4: 0,
            l3: 0,
            block_directory: 1,
            block_table: 2,
            direct: DIRECT_COUNT as u64,
        }
    );
    let size = L3_MAX;
    assert_eq!(
        Meta::index_blocks(size),
        LevelInfo {
            l4: 0,
            l3: 1,
            block_directory: (size - DIRECT_MAX + BLOCK_DIRECTORY_INDIRECT_MAX - 1)
                / BLOCK_DIRECTORY_INDIRECT_MAX,
            block_table: (size - DIRECT_MAX + BLOCK_TABLE_INDIRECT_MAX - 1)
                / BLOCK_TABLE_INDIRECT_MAX,
            direct: DIRECT_COUNT as u64,
        }
    );
    let size = L3_MAX + 1;
    assert_eq!(
        Meta::index_blocks(size),
        LevelInfo {
            l4: 1,
            l3: 2,
            block_directory: (size - DIRECT_MAX + BLOCK_DIRECTORY_INDIRECT_MAX - 1)
                / BLOCK_DIRECTORY_INDIRECT_MAX,
            block_table: (size - DIRECT_MAX + BLOCK_TABLE_INDIRECT_MAX - 1)
                / BLOCK_TABLE_INDIRECT_MAX,
            direct: DIRECT_COUNT as u64,
        }
    );
}
