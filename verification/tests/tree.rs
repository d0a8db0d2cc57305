use cafs::cafs::cache::CacheManager;
use cafs::cafs::layout::{
    IndirectBlock, IndirectBlockType, Meta, BLOCK_DIRECTORY_INDIRECT_MAX, BLOCK_DIRECTORY_MAX,
    BLOCK_TABLE_INDIRECT_MAX, BLOCK_TABLE_MAX, DIRECT_COUNT, DIRECT_MAX, INDIRECT_LEN,
    L3_INDIRECT_MAX, L3_MAX, L4_MAX,
};
use cafs::fs::InodeType;
use cafs::{BlockDevice, BLOCK_SIZE};
use std::collections::HashMap;
use std::ops::Range;

#[derive(Debug)]
pub struct FakeDisk {
    pub total_blocks: u64,
    pub data: HashMap<u64, [u8; BLOCK_SIZE as usize]>,
}

impl FakeDisk {
    pub fn new(total_blocks: u64) -> Self {
        Self {
            total_blocks,
            data: HashMap::new(),
        }
    }
}

impl BlockDevice for FakeDisk {
    fn read_block(&self, block_id: u64, buf: &mut [u8]) {
        assert!(block_id < self.total_blocks);
        assert_eq!(buf.len(), BLOCK_SIZE as usize);
        if self.data.contains_key(&block_id) {
            buf.copy_from_slice(&self.data[&block_id]);
        } else {
            buf.copy_from_slice(&[0u8; BLOCK_SIZE as usize]);
        }
    }

    fn write_block(&mut self, block_id: u64, buf: &[u8]) {
        assert!(block_id < self.total_blocks);
        assert_eq!(buf.len(), BLOCK_SIZE as usize);
        self.data.insert(block_id, buf.try_into().unwrap());
    }
}

fn entries_of(ids: Vec<u64>) -> [u64; INDIRECT_LEN] {
    ids.try_into().unwrap()
}

fn record(size: u64, direct: Vec<u64>, indirect: u64) -> Meta {
    let mut bytes = [0u8; 512];
    bytes[0..8].copy_from_slice(&size.to_le_bytes());
    for (i, id) in direct.iter().enumerate() {
        bytes[8 + 8 * i..16 + 8 * i].copy_from_slice(&id.to_le_bytes());
    }
    bytes[296..304].copy_from_slice(&indirect.to_le_bytes());
    bytes[304..312].copy_from_slice(&InodeType::File.tag().to_le_bytes());
    Meta::decode(&bytes).unwrap()
}

/// return (inode, index_ids, ids, cache_manager)
fn fake_inode(size: u64) -> (Meta, Vec<u64>, Vec<u64>, CacheManager<FakeDisk>, Range<u64>) {
    let mut fake_disk = FakeDisk::new(L4_MAX / BLOCK_SIZE);

    let mut id_iter = 100..3_000_000_000;

    let indirect_size = if size >= DIRECT_MAX {
        size - DIRECT_MAX
    } else {
        0
    };
    let (root, mut index_ids, mut block_ids) = if indirect_size != 0 {
        // L4
        let l3_counts = (indirect_size + L3_INDIRECT_MAX - 1) / L3_INDIRECT_MAX;
        let mut l3_indexes = (&mut id_iter).take(l3_counts as usize).collect::<Vec<_>>();
        let l4_entries = l3_indexes
            .clone()
            .into_iter()
            .chain(core::iter::repeat(0))
            .take(INDIRECT_LEN)
            .collect::<Vec<_>>();
        let l3_root = l4_entries[0];
        let l4 = IndirectBlock {
            entries: entries_of(l4_entries.clone()),
            type_: IndirectBlockType::L4,
        };
        let l4_root = 11;
        fake_disk.write_block(l4_root, &l4.encode());

        // L3
        let block_directory_counts =
            (indirect_size + BLOCK_DIRECTORY_INDIRECT_MAX - 1) / BLOCK_DIRECTORY_INDIRECT_MAX;
        let mut block_directory_indexes = (&mut id_iter)
            .take(block_directory_counts as usize)
            .collect::<Vec<_>>();
        let block_directory_root = block_directory_indexes[0];
        let mut l3_entries = block_directory_indexes
            .clone()
            .into_iter()
            .chain(core::iter::repeat(0));

        // block_directory
        let block_table_counts =
            (indirect_size + BLOCK_TABLE_INDIRECT_MAX - 1) / BLOCK_TABLE_INDIRECT_MAX;
        let mut block_table_indexes = (&mut id_iter)
            .take(block_table_counts as usize)
            .collect::<Vec<_>>();
        let block_table_root = block_table_indexes[0];
        let mut block_directory_entries = block_table_indexes
            .clone()
            .into_iter()
            .chain(core::iter::repeat(0));

        // block_table
        let blocks_count = (indirect_size + BLOCK_SIZE - 1) / BLOCK_SIZE;
        let block_table_entries_ids = (&mut id_iter)
            .take(blocks_count as usize)
            .collect::<Vec<_>>();
        let block_ids = block_table_entries_ids.clone();
        let mut blocks = block_table_entries_ids
            .into_iter()
            .chain(core::iter::repeat(0));

        for l4_entry in l4_entries {
            if l4_entry == 0 {
                break;
            }

            let l3_entries_ids = (&mut l3_entries).take(INDIRECT_LEN).collect::<Vec<_>>();

            for l3_entry in &l3_entries_ids {
                let block_directory_entries_ids = (&mut block_directory_entries)
                    .take(INDIRECT_LEN)
                    .collect::<Vec<_>>();

                for block_directory_entry in &block_directory_entries_ids {
                    let block_table_entries_ids =
                        (&mut blocks).take(INDIRECT_LEN).collect::<Vec<_>>();

                    let block_table = IndirectBlock {
                        entries: entries_of(block_table_entries_ids),
                        type_: IndirectBlockType::BlockTable,
                    };
                    fake_disk.write_block(*block_directory_entry, &block_table.encode());
                }

                let block_directory = IndirectBlock {
                    entries: entries_of(block_directory_entries_ids),
                    type_: IndirectBlockType::BlockDirectory,
                };
                fake_disk.write_block(*l3_entry, &block_directory.encode());
            }

            let l3 = IndirectBlock {
                entries: entries_of(l3_entries_ids),
                type_: IndirectBlockType::L3,
            };
            fake_disk.write_block(l4_entry, &l3.encode());
        }
        let (root, indexes) = if let Some(level) = Meta::index_blocks(size).root_level() {
            let mut indexes = vec![];
            match level {
                IndirectBlockType::BlockTable => {
                    indexes.push(block_table_root);
                    (block_table_root, indexes)
                }
                IndirectBlockType::BlockDirectory => {
                    indexes.push(block_directory_root);
                    indexes.append(&mut block_table_indexes);
                    (block_directory_root, indexes)
                }
                IndirectBlockType::L3 => {
                    indexes.push(l3_root);
                    indexes.append(&mut block_directory_indexes);
                    indexes.append(&mut block_table_indexes);
                    (l3_root, indexes)
                }
                IndirectBlockType::L4 => {
                    indexes.push(l4_root);
                    indexes.append(&mut l3_indexes);
                    indexes.append(&mut block_directory_indexes);
                    indexes.append(&mut block_table_indexes);
                    (l4_root, indexes)
                }
            }
        } else {
            (0, vec![])
        };
        (root, indexes, block_ids)
    } else {
        (0, vec![], vec![])
    };

    let direct_size = if root != 0 {
        DIRECT_COUNT as u64
    } else {
        (size + BLOCK_SIZE - 1) / BLOCK_SIZE
    };

    let inode = record(
        size,
        (1..=direct_size)
            .into_iter()
            .chain(core::iter::repeat(0))
            .take(DIRECT_COUNT)
            .collect::<Vec<_>>(),
        root,
    );
    let mut ids = inode.direct().to_vec();
    ids.append(&mut block_ids);

    let cache_manager = CacheManager::new(fake_disk);
    index_ids.sort();
    (inode, index_ids, ids, cache_manager, id_iter)
}

#[test]
fn test_small_get_block_id() {
    let (small, _index_ids, block_ids, mut cache_manager, _) = fake_inode(BLOCK_SIZE + 10);

    assert_eq!(
        small.get_block_id(0, &mut cache_manager),
        Some(block_ids[0])
    );
    assert_eq!(
        small.get_block_id(1, &mut cache_manager),
        Some(block_ids[1])
    );
    assert_eq!(small.get_block_id(2, &mut cache_manager), None);
}

#[test]
fn test_medium_get_block_id() {
    let (medium, _index_ids, block_ids, mut cache_manager, _) = fake_inode(DIRECT_MAX * 10);

    assert_eq!(
        medium.get_block_id((DIRECT_COUNT - 1) as u64, &mut cache_manager),
        Some(block_ids[DIRECT_COUNT - 1])
    );
    assert_eq!(
        medium.get_block_id(DIRECT_COUNT as u64, &mut cache_manager),
        Some(block_ids[DIRECT_COUNT])
    );
    assert_eq!(
        medium.get_block_id(DIRECT_COUNT as u64 + 1, &mut cache_manager),
        Some(block_ids[DIRECT_COUNT + 1])
    );
    assert_eq!(
        medium.get_block_id((block_ids.len() - 1) as u64, &mut cache_manager),
        Some(block_ids[block_ids.len() - 1])
    );
    assert_eq!(
        medium.get_block_id(block_ids.len() as u64, &mut cache_manager),
        None
    );
    assert_eq!(
        medium.get_block_id((block_ids.len() + 1) as u64, &mut cache_manager),
        None
    );
}

#[test]
fn test_large_get_block_id() {
    let (inode, _index_ids, block_ids, mut cache_manager, _) =
        fake_inode(L3_MAX + BLOCK_DIRECTORY_MAX);

    assert_eq!(
        inode.get_block_id(100u64, &mut cache_manager),
        Some(block_ids[100])
    );
    assert_eq!(
        inode.get_block_id(10000u64, &mut cache_manager),
        Some(block_ids[10000])
    );
    assert_eq!(
        inode.get_block_id((block_ids.len() - 1) as u64, &mut cache_manager),
        Some(*block_ids.last().unwrap())
    );
    assert_eq!(
        inode.get_block_id(block_ids.len() as u64, &mut cache_manager),
        None
    );
}

#[test]
fn test_inode_blocks() {
    let (small, index_ids_small, block_ids_small, mut cache_manager_small, _) =
        fake_inode(DIRECT_MAX);
    let (medium, index_ids_medium, block_ids_medium, mut cache_manager_medium, _) =
        fake_inode(BLOCK_DIRECTORY_MAX - BLOCK_SIZE);
    let (large, index_ids_large, block_ids_large, mut cache_manager_large, _) =
        fake_inode(2 * BLOCK_DIRECTORY_MAX);

    assert_eq!(
        small.blocks(&mut cache_manager_small),
        (index_ids_small, block_ids_small)
    );

    let blocks = medium.blocks(&mut cache_manager_medium);
    assert_eq!(blocks, (index_ids_medium, block_ids_medium));

    let blocks = large.blocks(&mut cache_manager_large);
    assert_eq!(blocks, (index_ids_large, block_ids_large));
}

#[test]
fn test_to_vec_filter() {
    let (inode, _index_ids, _block_ids, mut cache_manager, _) =
        fake_inode(2 * BLOCK_DIRECTORY_MAX);
    let root = IndirectBlock::load(&mut cache_manager, inode.indirect()).unwrap();
    let block_directory_id = root.entries[1];
    let root = IndirectBlock::load(&mut cache_manager, inode.indirect()).unwrap();
    let (filtered_index, filtered_data) =
        root.to_vec(&mut cache_manager, Some(&vec![block_directory_id]));
    assert_eq!(
        inode.data_blocks(),
        (filtered_data.len() + DIRECT_COUNT + INDIRECT_LEN * INDIRECT_LEN) as u64
    );
    assert_eq!(
        Meta::index_blocks(inode.size()).index_block_count(),
        1 + filtered_index.len() as u64 + 64
    );
}

#[test]
fn test_to_vec_walks_in_file_order() {
    let (inode, index_ids, block_ids, mut cache_manager, _) =
        fake_inode(BLOCK_DIRECTORY_MAX - BLOCK_SIZE);
    let root = IndirectBlock::load(&mut cache_manager, inode.indirect()).unwrap();
    assert!(root.type_ == IndirectBlockType::BlockDirectory);
    let (index, data) = root.to_vec(&mut cache_manager, None);
    assert_eq!(data, block_ids[DIRECT_COUNT..].to_vec());
    let mut below_root = index_ids.clone();
    below_root.retain(|id| *id != inode.indirect());
    assert_eq!(index, below_root);
}

#[test]
fn test_walk_from_the_root_finds_what_blocks_lists() {
    for size in [
        DIRECT_MAX + 1,
        BLOCK_TABLE_MAX,
        BLOCK_TABLE_MAX + 1,
        BLOCK_DIRECTORY_MAX,
        BLOCK_DIRECTORY_MAX + BLOCK_SIZE,
        2 * BLOCK_DIRECTORY_MAX,
    ] {
        let (inode, _index_ids, _block_ids, mut cache_manager, _) = fake_inode(size);
        let (index, data) = inode.blocks(&mut cache_manager);
        let root = IndirectBlock::load(&mut cache_manager, inode.indirect()).unwrap();
        let (walked_index, walked_data) = root.to_vec(&mut cache_manager, None);
        let mut all = vec![inode.indirect()];
        all.extend_from_slice(&walked_index);
        all.sort();
        assert_eq!(all, index);
        let mut listed = inode.direct().to_vec();
        listed.extend_from_slice(&walked_data);
        assert_eq!(listed, data);
    }
}

#[test]
fn test_get_block_id_matches_blocks() {
    for size in [
        0,
        1,
        BLOCK_SIZE,
        DIRECT_MAX,
        DIRECT_MAX + 1,
        BLOCK_TABLE_MAX,
        BLOCK_TABLE_MAX + 1,
        3 * BLOCK_TABLE_MAX + 17,
        BLOCK_DIRECTORY_MAX + 1,
    ] {
        let (inode, _index_ids, _block_ids, mut cache_manager, _) = fake_inode(size);
        let (index, data) = inode.blocks(&mut cache_manager);
        assert_eq!(index.len() as u64, Meta::index_blocks(size).index_block_count());
        assert_eq!(data.len() as u64, Meta::_data_blocks(size));
        for (i, id) in data.iter().enumerate() {
            assert_eq!(inode.get_block_id(i as u64, &mut cache_manager), Some(*id));
            assert_ne!(*id, 0);
        }
        assert_eq!(inode.get_block_id(data.len() as u64, &mut cache_manager), None);
    }
}

#[test]
fn test_blocks_sorts_the_index() {
    let (mut inode, _index_ids, _block_ids, mut cache_manager, _) = fake_inode(DIRECT_MAX);
    let new_size = BLOCK_TABLE_MAX + BLOCK_SIZE;
    let new_info = Meta::index_blocks(new_size);
    assert_eq!(new_info.index_block_count(), 3);
    let data_blocks = (1000..1000 + Meta::_data_blocks(new_size) - 36).collect::<Vec<_>>();
    inode.extend(
        new_size,
        new_info,
        data_blocks.clone(),
        vec![900, 700, 800],
        &mut cache_manager,
    );
    assert_eq!(inode.indirect(), 900);
    let (index, data) = inode.blocks(&mut cache_manager);
    assert_eq!(index, vec![700, 800, 900]);
    assert_eq!(data[..36].to_vec(), (1..=36).collect::<Vec<u64>>());
    assert_eq!(data[36..].to_vec(), data_blocks);
    let root = IndirectBlock::load(&mut cache_manager, 900).unwrap();
    assert!(root.type_ == IndirectBlockType::BlockDirectory);
    assert_eq!(root.entries[..3].to_vec(), vec![700, 800, 0]);
    let table = IndirectBlock::load(&mut cache_manager, 800).unwrap();
    assert!(table.type_ == IndirectBlockType::BlockTable);
    assert_eq!(table.entries[..2].to_vec(), vec![1000 + 63, 0]);
}

#[test]
fn test_shrink_frees_from_the_end() {
    let size = 2 * BLOCK_DIRECTORY_MAX;
    let (mut inode, index_ids, block_ids, mut cache_manager, _) = fake_inode(size);
    let prev_index_blocks = Meta::index_blocks(size).index_block_count();
    let prev_data_blocks = inode.data_blocks();
    let (freed_index, freed_data) = inode.shrink(DIRECT_MAX, &mut cache_manager);
    assert_eq!(freed_data.len() as u64, prev_data_blocks - 36);
    assert_eq!(freed_index.len() as u64, prev_index_blocks - 0);
    let mut expected_index = index_ids.clone();
    expected_index.reverse();
    assert_eq!(freed_index, expected_index);
    let mut expected_data = block_ids[36..].to_vec();
    expected_data.reverse();
    assert_eq!(freed_data, expected_data);
    assert_eq!(inode.size(), DIRECT_MAX);
    assert_eq!(inode.indirect(), 0);
    assert_eq!(
        inode.blocks(&mut cache_manager),
        (vec![], block_ids[..36].to_vec())
    );
}

#[test]
fn test_clear_size_returns_what_blocks_returned() {
    let (mut inode, _index_ids, _block_ids, mut cache_manager, _) =
        fake_inode(BLOCK_TABLE_MAX * 2);
    let (mut index, mut data) = inode.blocks(&mut cache_manager);
    let ids = inode.clear_size(&mut cache_manager);
    index.append(&mut data);
    assert_eq!(ids, index);
    assert_eq!(inode.size(), 0);
    assert_eq!(inode.indirect(), 0);
    assert!(inode.is_file());
    assert_eq!(inode.blocks(&mut cache_manager), (vec![], vec![]));
}

#[test]
fn test_shrink() {
    let mut prev_size = 2 * BLOCK_DIRECTORY_MAX;
    let shrink_size = [
        BLOCK_DIRECTORY_MAX,
        BLOCK_DIRECTORY_MAX - 10,
        BLOCK_DIRECTORY_MAX - BLOCK_SIZE,
        10 * BLOCK_TABLE_MAX,
        3 * BLOCK_TABLE_MAX,
        BLOCK_TABLE_MAX,
        BLOCK_TABLE_MAX - BLOCK_SIZE + 10,
        BLOCK_TABLE_MAX - BLOCK_SIZE,
        BLOCK_TABLE_MAX - BLOCK_SIZE - 10,
        BLOCK_TABLE_MAX - 2 * BLOCK_SIZE,
        2 * DIRECT_MAX + 10,
        DIRECT_MAX + 10 * BLOCK_SIZE + 20,
        DIRECT_MAX + BLOCK_SIZE,
        DIRECT_MAX,
        10 * BLOCK_SIZE,
        10 * BLOCK_SIZE,
        5 * BLOCK_SIZE - 10,
        3 * BLOCK_SIZE + 200,
        BLOCK_SIZE,
        300,
        0,
    ];
    let (mut inode, _index_ids, _block_ids, mut cache_manager, _) = fake_inode(prev_size);

    for new_size in shrink_size {
        println!("{} {}", prev_size, new_size);
        let prev_info = Meta::index_blocks(prev_size);
        let (index_ids, _block_ids) = inode.blocks(&mut cache_manager);
        assert_eq!(prev_info.index_block_count(), index_ids.len() as u64);

        let prev_index_blocks = prev_info.index_block_count();
        let prev_data_blocks = inode.data_blocks();

        let (dealloc_index_ids, dealloc_data_ids) = inode.shrink(new_size, &mut cache_manager);
        let new_info = Meta::index_blocks(inode.size());
        let new_index_blocks = new_info.index_block_count();
        let new_data_blocks = inode.data_blocks();

        let (index, blocks) = inode.blocks(&mut cache_manager);
        assert_eq!(index.len() as u64, new_info.index_block_count());
        assert_eq!(blocks.len() as u64, new_data_blocks);
        assert_eq!(
            prev_index_blocks,
            dealloc_index_ids.len() as u64 + new_index_blocks
        );
        assert_eq!(
            prev_data_blocks,
            dealloc_data_ids.len() as u64 + new_data_blocks
        );
        prev_size = new_size
    }
}

#[test]
fn test_expand() {
    let (mut inode, _index_ids, _block_ids, mut cache_manager, mut id_iter) = fake_inode(200);
    let extend_size = [
        // direct
        300,
        BLOCK_SIZE,
        BLOCK_SIZE + 20,
        BLOCK_SIZE * 2,
        DIRECT_MAX - 50,
        DIRECT_MAX,
        // indirect
        DIRECT_MAX + 30,
        DIRECT_MAX + BLOCK_SIZE,
        DIRECT_MAX + BLOCK_SIZE + 10,
        DIRECT_MAX + BLOCK_SIZE * 2,
        DIRECT_MAX * 2,
        BLOCK_TABLE_MAX,
        BLOCK_TABLE_MAX + 10,
        BLOCK_TABLE_MAX + DIRECT_MAX,
        BLOCK_TABLE_MAX + BLOCK_TABLE_INDIRECT_MAX,
        BLOCK_TABLE_MAX * 2,
        BLOCK_TABLE_MAX * 2 + DIRECT_MAX,
        BLOCK_DIRECTORY_MAX,
        BLOCK_DIRECTORY_MAX + DIRECT_MAX - 20,
        L3_MAX,
        L3_MAX + BLOCK_DIRECTORY_MAX,
        L3_MAX * 2,
    ];

    for new_size in extend_size {
        let curr_info = Meta::index_blocks(inode.size());

        let new_info = Meta::index_blocks(new_size);
        let new_index_blocks = new_info.index_block_count();
        let data_blocks = id_iter
            .by_ref()
            .take((Meta::_data_blocks(new_size) - inode.data_blocks()) as usize)
            .collect::<Vec<_>>();
        let index_blocks = id_iter
            .by_ref()
            .take((new_info.index_block_count() - curr_info.index_block_count()) as usize)
            .collect::<Vec<_>>();
        inode.extend(
            new_size,
            new_info,
            data_blocks,
            index_blocks,
            &mut cache_manager,
        );

        let (index_ids, block_ids) = inode.blocks(&mut cache_manager);
        assert_eq!(new_index_blocks, index_ids.len() as u64);
        assert_eq!(inode.data_blocks(), block_ids.len() as u64);
    }
}

#[test]
fn test_clear_size() {
    let (mut inode, index_ids, block_ids, mut cache_manager, _) = fake_inode(BLOCK_TABLE_MAX * 2);

    let ids = inode.clear_size(&mut cache_manager);

    assert_eq!(ids.len(), index_ids.len() + block_ids.len())
}
