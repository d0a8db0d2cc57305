use cafs::fake::Disk;
use cafs::{BlockDevice, BLOCK_SIZE};

#[test]
fn test_read_write_block() {
    let mut disk = Disk {
        total_blocks: 5,
        data: vec![[0; BLOCK_SIZE as usize]; 5],
    };
    assert_eq!(disk.data[2], [0; BLOCK_SIZE as usize]);
    let data = [5; BLOCK_SIZE as usize];
    disk.write_block(2, &data[..]);
    let mut out = [0u8; BLOCK_SIZE as usize];
    disk.read_block(2, &mut out);
    assert_eq!(out, data);
}

#[test]
fn test_disk_new_is_zeroed() {
    let disk = Disk::new(7);
    assert_eq!(disk.total_blocks, 7);
    assert_eq!(disk.data.len(), 7);
    for block in disk.data.iter() {
        assert_eq!(*block, [0u8; 512]);
    }
}
