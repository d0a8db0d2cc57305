use cafs::bytes::{byte_of, get_u32, get_u64, get_words, put_u32, put_u64, put_words};
use cafs::cafs::directory::{dir_append, dir_entries};
use cafs::cafs::{inode_number_binary, inode_number_from};

#[test]
fn test_words_in_a_block() {
    let mut block = [0u8; 512];
    put_u64(&mut block, 8, 0x0102_0304_0506_0708);
    assert_eq!(block[8..16].to_vec(), vec![8, 7, 6, 5, 4, 3, 2, 1]);
    assert_eq!(get_u64(&block, 8), 0x0102_0304_0506_0708);
    assert_eq!(get_u64(&block, 0), 0);
    assert_eq!(get_u64(&block, 16), 0);
    put_u32(&mut block, 0, 0x5138);
    assert_eq!(block[0..4].to_vec(), vec![0x38, 0x51, 0, 0]);
    assert_eq!(get_u32(&block, 0), 0x5138);
    assert_eq!(get_u64(&block, 8), 0x0102_0304_0506_0708);
    assert_eq!(byte_of(0x0102_0304_0506_0708, 0), 8);
    assert_eq!(byte_of(0x0102_0304_0506_0708, 7), 1);
    put_words(&mut block, 504, &[u64::MAX]);
    assert_eq!(get_u64(&block, 504), u64::MAX);
    let mut out = [0u64; 3];
    get_words(&block, 0, &mut out);
    assert_eq!(out, [0x5138, 0x0102_0304_0506_0708, 0]);
}

#[test]
fn test_inode_number_binary_values() {
    assert_eq!(
        inode_number_binary(0),
        [0xff, 0xff, 0xff, 0xff, 0xff, 0xff, 0xff, 0xff, 0xff, 10]
    );
    assert_eq!(
        inode_number_binary(1),
        [1, 0xff, 0xff, 0xff, 0xff, 0xff, 0xff, 0xff, 0xfe, 10]
    );
    assert_eq!(
        inode_number_binary(0x0100),
        [0xff, 1, 0xff, 0xff, 0xff, 0xff, 0xff, 0xff, 0xfd, 10]
    );
    assert_eq!(
        inode_number_binary(0x0807_0605_0403_0201),
        [1, 2, 3, 4, 5, 6, 7, 8, 0xff, 20]
    );
    assert_eq!(
        inode_number_binary(u64::MAX),
        [0xff, 0xff, 0xff, 0xff, 0xff, 0xff, 0xff, 0xff, 0xff, 20]
    );
}

#[test]
fn test_inode_number_round_trip() {
    let mut numbers = vec![0u64, 1, 2, 255, 256, 257, 0xff00, 0x00ff_0000, u64::MAX, u64::MAX - 1];
    for shift in 0..64 {
        numbers.push(1u64 << shift);
        numbers.push((1u64 << shift).wrapping_sub(1));
        numbers.push(0xA5u64 << (shift & 56));
    }
    for n in numbers {
        let record = inode_number_binary(n);
        assert!(record.iter().all(|b| *b != 0));
        assert_eq!(inode_number_from(record), n);
    }
}

#[test]
fn test_inode_number_from_ignores_flagged_bytes() {
    assert_eq!(
        inode_number_from([0x11, 0x22, 0x33, 0x44, 0x55, 0x66, 0x77, 0x88, 0b1010_1010, 10]),
        0x0077_0055_0033_0011
    );
    assert_eq!(
        inode_number_from([0x11, 0x22, 0x33, 0x44, 0x55, 0x66, 0x77, 0x88, 0b1010_1010, 20]),
        0x8877_6655_4433_2211
    );
}

#[test]
fn test_directory_contents() {
    assert_eq!(dir_entries(&vec![]), Vec::<u64>::new());
    let one = dir_append(vec![], 1);
    assert_eq!(one, inode_number_binary(1).to_vec());
    assert_eq!(dir_entries(&one), vec![1]);
    let two = dir_append(one.clone(), 0);
    assert_eq!(two.len(), 21);
    assert_eq!(two[10], 0);
    assert_eq!(two[..10].to_vec(), one);
    assert_eq!(two[11..].to_vec(), inode_number_binary(0).to_vec());
    assert_eq!(dir_entries(&two), vec![1, 0]);
    let mut many = vec![];
    let numbers = [5u64, 4096, 0, u64::MAX, 0x0100_0000_0000_0000, 77];
    for n in numbers {
        many = dir_append(many, n);
    }
    assert_eq!(many.len(), 6 * 10 + 5);
    assert_eq!(dir_entries(&many), numbers.to_vec());
}

#[test]
fn test_directory_contents_skip_short_stretches() {
    let mut data = inode_number_binary(9).to_vec();
    data.push(0);
    data.extend_from_slice(&[1, 2, 3]);
    data.push(0);
    data.push(0);
    data.extend_from_slice(&inode_number_binary(10));
    data.push(0);
    assert_eq!(dir_entries(&data), vec![9, 10]);
}
