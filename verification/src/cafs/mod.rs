//! The on-disk filesystem.
use crate::bytes::{byte_of, lemma_get_put_u64, spec_byte_of, spec_put_u64, spec_u64_at, spec_zeros};
use vstd::prelude::*;

pub use filesystem::CAFS;
pub use inode::CaInode;

pub mod bitmap;
pub mod cache;
pub mod inode;
pub mod consistency;
pub mod directory;
pub mod filesystem;
pub mod layout;
pub mod tree;
pub mod walk;

verus! {

/// Longest name of a file or directory, in bytes.
pub const NAME_LENGTH_LIMIT: usize = 199;

/// Largest number of inodes held in memory at a time.
pub const INODE_CACHE_SIZE: usize = 32;

/// One if byte `i` of `n` is zero, else zero.
pub open spec fn spec_zero_mark(n: u64, i: int) -> u8 {
    if spec_byte_of(n, i) == 0 {
        1
    } else {
        0
    }
}

/// The flag byte of the record of `n`, from the first `k` bytes of `n`:
/// bit `i` is set when byte `i` of `n` is zero.
pub open spec fn spec_zero_flag(n: u64, k: nat) -> u8
    decreases k,
{
    if k == 0 {
        0
    } else {
        spec_zero_flag(n, (k - 1) as nat) | (spec_zero_mark(n, k - 1) << ((k - 1) as u8))
    }
}

/// The ten-byte directory record of inode number `n`.
///
/// Bytes 0..8 are the little-endian bytes of `n` with every zero byte
/// replaced by 0xFF. Byte 8 has bit `i` set where byte `i` was replaced,
/// and byte 9 is 10; when no byte was replaced, byte 8 is 0xFF and byte 9
/// is 20. No byte of the record is zero.
pub open spec fn spec_inode_number_binary(n: u64) -> Seq<u8> {
    Seq::new(
        10,
        |i: int|
            if i < 8 {
                if spec_byte_of(n, i) == 0 {
                    0xffu8
                } else {
                    spec_byte_of(n, i)
                }
            } else if i == 8 {
                if spec_zero_flag(n, 8) == 0 {
                    0xffu8
                } else {
                    spec_zero_flag(n, 8)
                }
            } else {
                if spec_zero_flag(n, 8) == 0 {
                    20u8
                } else {
                    10u8
                }
            },
    )
}

/// The flag that a record is read with: none when byte 9 is 20, else byte 8.
pub open spec fn spec_record_flag(arr: Seq<u8>) -> u8 {
    if arr[9] == 20 {
        0
    } else {
        arr[8]
    }
}

/// The little-endian bytes of the inode number in the record `arr`: byte
/// `i` is taken from the record unless its bit in the flag is set, in
/// which case it is zero.
pub open spec fn spec_record_bytes(arr: Seq<u8>) -> Seq<u8> {
    Seq::new(
        8,
        |i: int|
            if (spec_record_flag(arr) >> (i as u8)) & 1 == 0 {
                arr[i]
            } else {
                0u8
            },
    )
}

/// The inode number that the ten-byte record `arr` stands for.
pub open spec fn spec_inode_number_from(arr: Seq<u8>) -> u64 {
    spec_u64_at(spec_record_bytes(arr), 0)
}

proof fn lemma_flag_bits(n: u64)
    ensures
        forall|i: int| 0 <= i < 8 ==> ((spec_zero_flag(n, 8) >> (i as u8)) & 1 == 1 <==> spec_byte_of(
            n,
            i,
        ) == 0),
        forall|i: int| 0 <= i < 8 ==> ((spec_zero_flag(n, 8) >> (i as u8)) & 1 == 0 <==> spec_byte_of(
            n,
            i,
        ) != 0),
        spec_zero_flag(n, 8) == 0 <==> (forall|i: int| 0 <= i < 8 ==> spec_byte_of(n, i) != 0),
{
    reveal_with_fuel(spec_zero_flag, 9);
    let z0 = spec_zero_mark(n, 0);
    let z1 = spec_zero_mark(n, 1);
    let z2 = spec_zero_mark(n, 2);
    let z3 = spec_zero_mark(n, 3);
    let z4 = spec_zero_mark(n, 4);
    let z5 = spec_zero_mark(n, 5);
    let z6 = spec_zero_mark(n, 6);
    let z7 = spec_zero_mark(n, 7);
    let f = spec_zero_flag(n, 8);
    assert(f == 0u8 | (z0 << 0u8) | (z1 << 1u8) | (z2 << 2u8) | (z3 << 3u8) | (z4 << 4u8) | (z5
        << 5u8) | (z6 << 6u8) | (z7 << 7u8));
    assert((f >> 0u8) & 1 == z0 && (f >> 1u8) & 1 == z1 && (f >> 2u8) & 1 == z2 && (f >> 3u8) & 1
        == z3 && (f >> 4u8) & 1 == z4 && (f >> 5u8) & 1 == z5 && (f >> 6u8) & 1 == z6 && (f >> 7u8)
        & 1 == z7 && (f == 0 <==> (z0 == 0 && z1 == 0 && z2 == 0 && z3 == 0 && z4 == 0 && z5 == 0
        && z6 == 0 && z7 == 0))) by (bit_vector)
        requires
            f == 0u8 | (z0 << 0u8) | (z1 << 1u8) | (z2 << 2u8) | (z3 << 3u8) | (z4 << 4u8) | (z5
                << 5u8) | (z6 << 6u8) | (z7 << 7u8),
            z0 <= 1,
            z1 <= 1,
            z2 <= 1,
            z3 <= 1,
            z4 <= 1,
            z5 <= 1,
            z6 <= 1,
            z7 <= 1,
    ;
    assert forall|i: int| 0 <= i < 8 implies ((f >> (i as u8)) & 1 == 1 <==> spec_byte_of(n, i)
        == 0) && ((f >> (i as u8)) & 1 == 0 <==> spec_byte_of(n, i) != 0) by {
        if i == 0 {
        } else if i == 1 {
        } else if i == 2 {
        } else if i == 3 {
        } else if i == 4 {
        } else if i == 5 {
        } else if i == 6 {
        } else {
        }
    }
    if f == 0 {
        assert forall|i: int| 0 <= i < 8 implies spec_byte_of(n, i) != 0 by {
            let sh = i as u8;
            assert((f >> sh) & 1 == 0) by (bit_vector)
                requires
                    f == 0,
            ;
        }
    }
}

/// Reading the record of an inode number gives the number back, and no
/// byte of a record is zero.
pub proof fn lemma_inode_number_round_trip(n: u64)
    ensures
        spec_inode_number_from(spec_inode_number_binary(n)) == n,
        spec_inode_number_binary(n).len() == 10,
        forall|i: int| 0 <= i < 10 ==> spec_inode_number_binary(n)[i] != 0,
{
    lemma_flag_bits(n);
    let arr = spec_inode_number_binary(n);
    let f = spec_zero_flag(n, 8);
    let bytes = spec_record_bytes(arr);
    assert forall|i: int| 0 <= i < 8 implies bytes[i] == spec_byte_of(n, i) by {
        if f == 0 {
            let z = 0u8;
            let sh = i as u8;
            assert((z >> sh) & 1 == 0) by (bit_vector)
                requires
                    z == 0,
            ;
        } else {
            assert(spec_record_flag(arr) == f);
        }
    }
    let z8 = spec_zeros(8);
    lemma_get_put_u64(z8, 0, n);
    assert(spec_put_u64(z8, 0, n) =~= bytes);
}

/// The ten-byte directory record of `inode_number`.
pub fn inode_number_binary(inode_number: u64) -> (repre: [u8; 10])
    ensures
        repre@ == spec_inode_number_binary(inode_number),
{
    let mut repre = [0u8; 10];
    let mut flag: u8 = 0;
    let mut meta_flag: u8 = 10;
    let mut i: u8 = 0;
    while i < 8
        invariant
            i <= 8,
            flag == spec_zero_flag(inode_number, i as nat),
            forall|j: int| 0 <= j < i ==> repre@[j] == spec_inode_number_binary(inode_number)[j],
        decreases 8 - i,
    {
        let byte = byte_of(inode_number, i as usize);
        if byte == 0 {
            repre[i as usize] = u8::MAX;
            flag = flag | (1u8 << i);
        } else {
            repre[i as usize] = byte;
            assert(flag | (0u8 << i) == flag) by (bit_vector);
        }
        i += 1;
    }
    if flag == 0 {
        flag = u8::MAX;
        meta_flag = 20;
    }
    repre[8] = flag;
    repre[9] = meta_flag;
    assert(repre@ =~= spec_inode_number_binary(inode_number));
    repre
}

/// The inode number that the ten-byte record `arr` stands for.
pub fn inode_number_from(arr: [u8; 10]) -> (n: u64)
    ensures
        n == spec_inode_number_from(arr@),
{
    let meta_flag = arr[9];
    let mut flag = arr[8];
    if meta_flag == 20 {
        flag = 0;
    }
    let mut bytes = [0u8; 8];
    let mut i: u8 = 0;
    while i < 8
        invariant
            i <= 8,
            flag == spec_record_flag(arr@),
            forall|j: int| 0 <= j < i ==> bytes@[j] == spec_record_bytes(arr@)[j],
            forall|j: int| i <= j < 8 ==> bytes@[j] == 0,
        decreases 8 - i,
    {
        if (flag & (1u8 << i)) >> i == 0 {
            bytes[i as usize] = arr[i as usize];
            assert((flag >> i) & 1 == 0) by (bit_vector)
                requires
                    (flag & (1u8 << i)) >> i == 0,
                    i < 8,
            ;
        } else {
            assert((flag >> i) & 1 != 0) by (bit_vector)
                requires
                    (flag & (1u8 << i)) >> i != 0,
                    i < 8,
            ;
        }
        i += 1;
    }
    assert(bytes@ =~= spec_record_bytes(arr@));
    (bytes[0] as u64) | ((bytes[1] as u64) << 8) | ((bytes[2] as u64) << 16) | ((bytes[3] as u64)
        << 24) | ((bytes[4] as u64) << 32) | ((bytes[5] as u64) << 40) | ((bytes[6] as u64) << 48)
        | ((bytes[7] as u64) << 56)
}

} // verus!
