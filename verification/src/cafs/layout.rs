//! The structures that the filesystem keeps on disk: the superblock, the
//! inode record and the indirect block, each with its byte layout, and the
//! rule that says how many index blocks a file of a given size has.
use crate::bytes::{
    get_u32, get_u64, get_words, lemma_get32_put_u64_other, lemma_get_put_u32, lemma_get_put_u64,
    lemma_get_put_u64_other, put_u32, put_u64, put_words, spec_u32_at, spec_u64_at,
};
use crate::fs::InodeType;
use vstd::prelude::*;

verus! {

/// The magic number of a formatted filesystem.
pub const FS_MAGIC: u32 = 0x5138;

/// Number of block ids held in the inode record itself.
pub const DIRECT_COUNT: usize = 36;

/// Number of entries of an indirect block: a block of 64 words, less the
/// word that holds its type.
pub const INDIRECT_LEN: usize = 63;

/// Largest size of a file that needs no indirect block.
pub const DIRECT_MAX: u64 = 18432;

/// Bytes reached through one block table.
pub const BLOCK_TABLE_INDIRECT_MAX: u64 = 32256;

/// Largest size of a file whose indirect tree is one block table.
pub const BLOCK_TABLE_MAX: u64 = 50688;

/// Bytes reached through one block directory.
pub const BLOCK_DIRECTORY_INDIRECT_MAX: u64 = 2032128;

/// Largest size of a file whose indirect tree is rooted in a block directory.
pub const BLOCK_DIRECTORY_MAX: u64 = 2050560;

/// Bytes reached through one level-3 block.
pub const L3_INDIRECT_MAX: u64 = 128024064;

/// Largest size of a file whose indirect tree is rooted in a level-3 block.
pub const L3_MAX: u64 = 128042496;

/// Bytes reached through one level-4 block.
pub const L4_INDIRECT_MAX: u64 = 8065516032;

/// Largest size of a file that the index can address.
pub const L4_MAX: u64 = 8065534464;

/// The layout descriptor stored in block 0.
///
/// On disk: the magic number in bytes 0..4, then from byte 8 on the five
/// counts as 64-bit words; every other byte of the block is zero.
pub struct SuperBlock {
    pub magic: u32,
    pub total_blocks: u64,
    pub inode_bitmap_blocks: u64,
    pub inode_area_blocks: u64,
    pub data_bitmap_blocks: u64,
    pub data_area_blocks: u64,
}

impl SuperBlock {
    /// The descriptor found in the bytes of a block.
    pub open spec fn spec_decode(b: Seq<u8>) -> SuperBlock {
        SuperBlock {
            magic: spec_u32_at(b, 0),
            total_blocks: spec_u64_at(b, 8),
            inode_bitmap_blocks: spec_u64_at(b, 16),
            inode_area_blocks: spec_u64_at(b, 24),
            data_bitmap_blocks: spec_u64_at(b, 32),
            data_area_blocks: spec_u64_at(b, 40),
        }
    }

    /// Makes this the descriptor of a freshly formatted filesystem with
    /// the given region sizes.
    pub fn initialize(
        &mut self,
        total_blocks: u64,
        inode_bitmap_blocks: u64,
        inode_area_blocks: u64,
        data_bitmap_blocks: u64,
        data_area_blocks: u64,
    )
        ensures
            *final(self) == (SuperBlock {
                magic: FS_MAGIC,
                total_blocks,
                inode_bitmap_blocks,
                inode_area_blocks,
                data_bitmap_blocks,
                data_area_blocks,
            }),
            final(self).is_valid(),
    {
        *self = Self {
            magic: FS_MAGIC,
            total_blocks,
            inode_bitmap_blocks,
            inode_area_blocks,
            data_bitmap_blocks,
            data_area_blocks,
        }
    }

    /// Whether the magic number is that of this filesystem.
    #[verifier::when_used_as_spec(spec_is_valid)]
    pub fn is_valid(&self) -> (b: bool)
        ensures
            b == self.spec_is_valid(),
    {
        self.magic == FS_MAGIC
    }

    /// Whether the magic number is that of this filesystem.
    pub open spec fn spec_is_valid(&self) -> bool {
        self.magic == FS_MAGIC
    }

    /// Reads the descriptor from the bytes of a block.
    pub fn decode(b: &[u8; 512]) -> (s: SuperBlock)
        ensures
            s == SuperBlock::spec_decode(b@),
    {
        SuperBlock {
            magic: get_u32(b, 0),
            total_blocks: get_u64(b, 8),
            inode_bitmap_blocks: get_u64(b, 16),
            inode_area_blocks: get_u64(b, 24),
            data_bitmap_blocks: get_u64(b, 32),
            data_area_blocks: get_u64(b, 40),
        }
    }

    /// The block that holds this descriptor: the fields at their places,
    /// zero elsewhere.
    pub fn encode(&self) -> (b: [u8; 512])
        ensures
            SuperBlock::spec_decode(b@) == *self,
            forall|i: int| 4 <= i < 8 || 48 <= i < 512 ==> b@[i] == 0u8,
    {
        let mut b = [0u8; 512];
        let ghost b0 = b@;
        put_u32(&mut b, 0, self.magic);
        let ghost b1 = b@;
        put_u64(&mut b, 8, self.total_blocks);
        let ghost b2 = b@;
        put_u64(&mut b, 16, self.inode_bitmap_blocks);
        let ghost b3 = b@;
        put_u64(&mut b, 24, self.inode_area_blocks);
        let ghost b4 = b@;
        put_u64(&mut b, 32, self.data_bitmap_blocks);
        let ghost b5 = b@;
        put_u64(&mut b, 40, self.data_area_blocks);
        proof {
            lemma_get_put_u32(b0, 0, self.magic);
            lemma_get32_put_u64_other(b1, 8, self.total_blocks, 0);
            lemma_get32_put_u64_other(b2, 16, self.inode_bitmap_blocks, 0);
            lemma_get32_put_u64_other(b3, 24, self.inode_area_blocks, 0);
            lemma_get32_put_u64_other(b4, 32, self.data_bitmap_blocks, 0);
            lemma_get32_put_u64_other(b5, 40, self.data_area_blocks, 0);
            lemma_get_put_u64(b1, 8, self.total_blocks);
            lemma_get_put_u64_other(b2, 16, self.inode_bitmap_blocks, 8);
            lemma_get_put_u64_other(b3, 24, self.inode_area_blocks, 8);
            lemma_get_put_u64_other(b4, 32, self.data_bitmap_blocks, 8);
            lemma_get_put_u64_other(b5, 40, self.data_area_blocks, 8);
            lemma_get_put_u64(b2, 16, self.inode_bitmap_blocks);
            lemma_get_put_u64_other(b3, 24, self.inode_area_blocks, 16);
            lemma_get_put_u64_other(b4, 32, self.data_bitmap_blocks, 16);
            lemma_get_put_u64_other(b5, 40, self.data_area_blocks, 16);
            lemma_get_put_u64(b3, 24, self.inode_area_blocks);
            lemma_get_put_u64_other(b4, 32, self.data_bitmap_blocks, 24);
            lemma_get_put_u64_other(b5, 40, self.data_area_blocks, 24);
            lemma_get_put_u64(b4, 32, self.data_bitmap_blocks);
            lemma_get_put_u64_other(b5, 40, self.data_area_blocks, 32);
            lemma_get_put_u64(b5, 40, self.data_area_blocks);
        }
        b
    }
}

/// The level of an indirect block in the index tree of a file.
#[derive(PartialEq, Eq, Structural, Copy, Clone, Debug)]
pub enum IndirectBlockType {
    /// Its entries are data blocks.
    BlockTable,
    /// Its entries are block tables.
    BlockDirectory,
    /// Its entries are block directories.
    L3,
    /// Its entries are level-3 blocks.
    L4,
}

impl IndirectBlockType {
    /// The 64-bit tag by which the level is stored on disk.
    pub open spec fn spec_tag(self) -> u64 {
        match self {
            IndirectBlockType::BlockTable => 0,
            IndirectBlockType::BlockDirectory => 1,
            IndirectBlockType::L3 => 2,
            IndirectBlockType::L4 => 3,
        }
    }

    /// The level that `tag` stands for, if any.
    pub open spec fn spec_from_tag(tag: u64) -> Option<IndirectBlockType> {
        if tag == 0 {
            Some(IndirectBlockType::BlockTable)
        } else if tag == 1 {
            Some(IndirectBlockType::BlockDirectory)
        } else if tag == 2 {
            Some(IndirectBlockType::L3)
        } else if tag == 3 {
            Some(IndirectBlockType::L4)
        } else {
            None
        }
    }

    /// The 64-bit tag by which the level is stored on disk.
    pub fn tag(self) -> (t: u64)
        ensures
            t == self.spec_tag(),
    {
        match self {
            IndirectBlockType::BlockTable => 0,
            IndirectBlockType::BlockDirectory => 1,
            IndirectBlockType::L3 => 2,
            IndirectBlockType::L4 => 3,
        }
    }

    /// The level that `tag` stands for, if any.
    pub fn from_tag(tag: u64) -> (t: Option<IndirectBlockType>)
        ensures
            t == Self::spec_from_tag(tag),
    {
        if tag == 0 {
            Some(IndirectBlockType::BlockTable)
        } else if tag == 1 {
            Some(IndirectBlockType::BlockDirectory)
        } else if tag == 2 {
            Some(IndirectBlockType::L3)
        } else if tag == 3 {
            Some(IndirectBlockType::L4)
        } else {
            None
        }
    }

    /// The next level up; the top level stays where it is.
    pub fn add(&self) -> (t: Self)
        ensures
            t.spec_tag() == if self.spec_tag() == 3 {
                3
            } else {
                self.spec_tag() + 1
            },
    {
        match self {
            IndirectBlockType::BlockTable => IndirectBlockType::BlockDirectory,
            IndirectBlockType::BlockDirectory => IndirectBlockType::L3,
            IndirectBlockType::L3 => IndirectBlockType::L4,
            IndirectBlockType::L4 => IndirectBlockType::L4,
        }
    }

    /// The next level down; the bottom level stays where it is.
    pub fn decrease(&self) -> (t: Self)
        ensures
            t.spec_tag() == if self.spec_tag() == 0 {
                0
            } else {
                self.spec_tag() - 1
            },
    {
        match self {
            IndirectBlockType::BlockTable => IndirectBlockType::BlockTable,
            IndirectBlockType::BlockDirectory => IndirectBlockType::BlockTable,
            IndirectBlockType::L3 => IndirectBlockType::BlockDirectory,
            IndirectBlockType::L4 => IndirectBlockType::L3,
        }
    }
}

/// How many index blocks of each level, and how many direct entries, a
/// file uses.
#[derive(Debug, Eq, PartialEq, Structural, Clone, Copy)]
pub struct LevelInfo {
    pub l4: u64,
    pub l3: u64,
    pub block_directory: u64,
    pub block_table: u64,
    pub direct: u64,
}

impl LevelInfo {
    /// The level of the block that the inode points to: the highest level
    /// with exactly one block.
    pub open spec fn spec_root_level(&self) -> Option<IndirectBlockType> {
        if self.l4 == 1 {
            Some(IndirectBlockType::L4)
        } else if self.l3 == 1 {
            Some(IndirectBlockType::L3)
        } else if self.block_directory == 1 {
            Some(IndirectBlockType::BlockDirectory)
        } else if self.block_table == 1 {
            Some(IndirectBlockType::BlockTable)
        } else {
            None
        }
    }

    /// The number of blocks of level `type_`.
    pub open spec fn spec_type_count(&self, type_: IndirectBlockType) -> u64 {
        match type_ {
            IndirectBlockType::BlockTable => self.block_table,
            IndirectBlockType::BlockDirectory => self.block_directory,
            IndirectBlockType::L3 => self.l3,
            IndirectBlockType::L4 => self.l4,
        }
    }

    /// The number of index blocks of all levels together.
    pub open spec fn spec_index_block_count(&self) -> int {
        self.l4 + self.l3 + self.block_directory + self.block_table
    }

    /// The level of the block that the inode points to: the highest level
    /// with exactly one block.
    pub fn root_level(&self) -> (r: Option<IndirectBlockType>)
        ensures
            r == self.spec_root_level(),
    {
        if self.l4 == 1 {
            return Some(IndirectBlockType::L4);
        }
        if self.l3 == 1 {
            return Some(IndirectBlockType::L3);
        }
        if self.block_directory == 1 {
            return Some(IndirectBlockType::BlockDirectory);
        }
        if self.block_table == 1 {
            return Some(IndirectBlockType::BlockTable);
        }
        None
    }

    /// The number of blocks of level `type_`.
    pub fn type_count(&self, type_: IndirectBlockType) -> (n: u64)
        ensures
            n == self.spec_type_count(type_),
    {
        match type_ {
            IndirectBlockType::BlockTable => self.block_table,
            IndirectBlockType::BlockDirectory => self.block_directory,
            IndirectBlockType::L3 => self.l3,
            IndirectBlockType::L4 => self.l4,
        }
    }

    /// The number of index blocks of all levels together.
    pub fn index_block_count(&self) -> (n: u64)
        requires
            self.spec_index_block_count() <= u64::MAX,
        ensures
            n == self.spec_index_block_count(),
    {
        return self.l4 + self.l3 + self.block_directory + self.block_table;
    }
}

/// `a / b` rounded up.
pub open spec fn spec_ceil_div(a: int, b: int) -> int {
    (a + b - 1) / b
}

/// The number of blocks that hold `size` bytes.
pub open spec fn spec_data_blocks(size: u64) -> int {
    spec_ceil_div(size as int, 512)
}

/// The index layout of a file of `size` bytes.
///
/// Up to `DIRECT_MAX` bytes need direct entries only. Beyond that all 36
/// direct entries are in use, every level up to the root has as many
/// blocks as it takes to reach the bytes past `DIRECT_MAX`, and the root is
/// the lowest level that reaches them with a single block.
pub open spec fn spec_index_blocks(size: u64) -> LevelInfo {
    let rest = size - DIRECT_MAX;
    if size > L3_MAX {
        LevelInfo {
            l4: 1,
            l3: spec_ceil_div(rest, L3_INDIRECT_MAX as int) as u64,
            block_directory: spec_ceil_div(rest, BLOCK_DIRECTORY_INDIRECT_MAX as int) as u64,
            block_table: spec_ceil_div(rest, BLOCK_TABLE_INDIRECT_MAX as int) as u64,
            direct: 36,
        }
    } else if size > BLOCK_DIRECTORY_MAX {
        LevelInfo {
            l4: 0,
            l3: 1,
            block_directory: spec_ceil_div(rest, BLOCK_DIRECTORY_INDIRECT_MAX as int) as u64,
            block_table: spec_ceil_div(rest, BLOCK_TABLE_INDIRECT_MAX as int) as u64,
            direct: 36,
        }
    } else if size > BLOCK_TABLE_MAX {
        LevelInfo {
            l4: 0,
            l3: 0,
            block_directory: 1,
            block_table: spec_ceil_div(rest, BLOCK_TABLE_INDIRECT_MAX as int) as u64,
            direct: 36,
        }
    } else if size > DIRECT_MAX {
        LevelInfo { l4: 0, l3: 0, block_directory: 0, block_table: 1, direct: 36 }
    } else {
        LevelInfo {
            l4: 0,
            l3: 0,
            block_directory: 0,
            block_table: 0,
            direct: spec_data_blocks(size) as u64,
        }
    }
}

/// `a / b` rounded up, without overflow.
pub fn ceil_div(a: u64, b: u64) -> (q: u64)
    requires
        b > 0,
    ensures
        q == spec_ceil_div(a as int, b as int),
{
    let q = a / b;
    let r = a % b;
    proof {
        assert(a == q * b + r) by (nonlinear_arith)
            requires
                q == a / b,
                r == a % b,
                b > 0,
        ;
        if r == 0 {
            assert((q * b + b - 1) / (b as int) == q) by (nonlinear_arith)
                requires
                    b > 0,
            ;
        } else {
            assert((q * b + r + b - 1) / (b as int) == q + 1) by (nonlinear_arith)
                requires
                    b > 0,
                    0 < r < b,
            ;
            assert(q < u64::MAX) by (nonlinear_arith)
                requires
                    a == q * b + r,
                    0 < r,
                    b > 0,
                    a <= u64::MAX,
            ;
        }
    }
    if r == 0 {
        q
    } else {
        q + 1
    }
}

/// What an inode record says, as plain values.
pub struct MetaView {
    /// Size of the file in bytes.
    pub size: u64,
    /// The 36 direct block ids; unused entries are zero.
    pub direct: Seq<u64>,
    /// The root of the indirect tree, or zero.
    pub indirect: u64,
    /// File or directory.
    pub type_: InodeType,
    /// The name, zero-terminated, in 200 bytes.
    pub name: Seq<u8>,
}

/// The inode record.
///
/// On disk it fills one block: the size in bytes 0..8, the 36 direct ids
/// from byte 8, the indirect id at byte 296, the type tag at byte 304 and
/// the name in bytes 312..512.
pub struct Meta {
    size: u64,
    direct: [u64; 36],
    indirect: u64,
    type_: InodeType,
    name: [u8; 200],
}

/// The record that the bytes of a block hold, if their type tag is valid.
pub open spec fn spec_decode_meta(b: Seq<u8>) -> Option<MetaView> {
    match InodeType::spec_from_tag(spec_u64_at(b, 304)) {
        Some(t) => Some(
            MetaView {
                size: spec_u64_at(b, 0),
                direct: Seq::new(36, |i: int| spec_u64_at(b, 8 + 8 * i)),
                indirect: spec_u64_at(b, 296),
                type_: t,
                name: b.subrange(312, 512),
            },
        ),
        None => None,
    }
}

/// The record of an empty file or directory.
pub open spec fn spec_empty_meta(type_: InodeType, name: Seq<u8>) -> MetaView {
    MetaView { size: 0, direct: Seq::new(36, |i: int| 0u64), indirect: 0, type_, name }
}

impl Meta {
    /// The record as plain values.
    pub closed spec fn view(&self) -> MetaView {
        MetaView {
            size: self.size,
            direct: self.direct@,
            indirect: self.indirect,
            type_: self.type_,
            name: self.name@,
        }
    }

    /// A record always has 36 direct entries and 200 bytes of name.
    pub proof fn lemma_view_lengths(&self)
        ensures
            self@.direct.len() == 36,
            self@.name.len() == 200,
    {
    }

    /// The record of an empty file or directory.
    pub fn new(type_: InodeType, name: [u8; 200]) -> (m: Self)
        ensures
            m@ == spec_empty_meta(type_, name@),
    {
        let m = Meta { size: 0, direct: [0u64; 36], indirect: 0, type_, name };
        assert(m@.direct =~= Seq::new(36, |i: int| 0u64));
        m
    }

    /// Makes this the record of an empty file or directory.
    pub fn init(&mut self, type_: InodeType, name: [u8; 200])
        ensures
            final(self)@ == spec_empty_meta(type_, name@),
    {
        self.size = 0;
        self.direct = [0u64; 36];
        self.indirect = 0;
        self.type_ = type_;
        self.name = name;
        assert(self@.direct =~= Seq::new(36, |i: int| 0u64));
    }

    /// Sets the size and leaves the rest of the record as it is.
    pub(crate) fn set_size(&mut self, size: u64)
        ensures
            final(self)@ == (MetaView { size, ..old(self)@ }),
    {
        self.size = size;
    }

    /// Sets the direct entries and the root of the indirect tree and
    /// leaves the rest of the record as it is.
    pub(crate) fn set_index(&mut self, direct: [u64; 36], indirect: u64)
        ensures
            final(self)@ == (MetaView { direct: direct@, indirect, ..old(self)@ }),
    {
        self.direct = direct;
        self.indirect = indirect;
    }

    /// Size of the file in bytes.
    pub fn size(&self) -> (r: u64)
        ensures
            r == self@.size,
    {
        self.size
    }

    /// File or directory.
    pub fn type_(&self) -> (r: InodeType)
        ensures
            r == self@.type_,
    {
        self.type_
    }

    /// The direct block ids.
    pub fn direct(&self) -> (r: &[u64])
        ensures
            r@ == self@.direct,
    {
        &self.direct
    }

    /// The root of the indirect tree, or zero.
    pub fn indirect(&self) -> (r: u64)
        ensures
            r == self@.indirect,
    {
        self.indirect
    }

    /// The name, zero-terminated.
    pub fn name(&self) -> (r: [u8; 200])
        ensures
            r@ == self@.name,
    {
        self.name
    }

    /// Whether this is the record of a directory.
    pub fn is_dir(&self) -> (r: bool)
        ensures
            r == (self@.type_ == InodeType::Dir),
    {
        self.type_ == InodeType::Dir
    }

    /// Whether this is the record of a file.
    pub fn is_file(&self) -> (r: bool)
        ensures
            r == (self@.type_ == InodeType::File),
    {
        self.type_ == InodeType::File
    }

    /// The number of blocks that hold the file's bytes.
    pub fn data_blocks(&self) -> (r: u64)
        ensures
            r == spec_data_blocks(self@.size),
    {
        Self::_data_blocks(self.size)
    }

    /// The number of blocks that hold `size` bytes.
    pub fn _data_blocks(size: u64) -> (r: u64)
        ensures
            r == spec_data_blocks(size),
    {
        ceil_div(size, 512)
    }

    /// The index layout of a file of `size` bytes.
    pub fn index_blocks(size: u64) -> (info: LevelInfo)
        ensures
            info == spec_index_blocks(size),
    {
        let indirect_size = if size >= DIRECT_MAX {
            size - DIRECT_MAX
        } else {
            0
        };
        let block_table_len = ceil_div(indirect_size, BLOCK_TABLE_INDIRECT_MAX);
        let block_directory_len = ceil_div(indirect_size, BLOCK_DIRECTORY_INDIRECT_MAX);
        let l3_len = ceil_div(indirect_size, L3_INDIRECT_MAX);
        if size > L3_MAX {
            LevelInfo {
                l4: 1,
                l3: l3_len,
                block_directory: block_directory_len,
                block_table: block_table_len,
                direct: 36,
            }
        } else if size > BLOCK_DIRECTORY_MAX {
            LevelInfo {
                l4: 0,
                l3: 1,
                block_directory: block_directory_len,
                block_table: block_table_len,
                direct: 36,
            }
        } else if size > BLOCK_TABLE_MAX {
            LevelInfo { l4: 0, l3: 0, block_directory: 1, block_table: block_table_len, direct: 36 }
        } else if size > DIRECT_MAX {
            LevelInfo { l4: 0, l3: 0, block_directory: 0, block_table: 1, direct: 36 }
        } else {
            LevelInfo {
                l4: 0,
                l3: 0,
                block_directory: 0,
                block_table: 0,
                direct: ceil_div(size, 512),
            }
        }
    }

    /// Reads a record from the bytes of a block; `None` when the type tag
    /// is neither that of a file nor that of a directory.
    pub fn decode(b: &[u8; 512]) -> (m: Option<Meta>)
        ensures
            match m {
                Some(m) => spec_decode_meta(b@) == Some(m@),
                None => spec_decode_meta(b@) is None,
            },
    {
        match InodeType::from_tag(get_u64(b, 304)) {
            Some(type_) => {
                let mut direct = [0u64; 36];
                get_words(b, 8, &mut direct);
                let mut name = [0u8; 200];
                let mut i: usize = 0;
                while i < 200
                    invariant
                        i <= 200,
                        forall|j: int| 0 <= j < i ==> name@[j] == b@[312 + j],
                    decreases 200 - i,
                {
                    name[i] = b[312 + i];
                    i += 1;
                }
                let m = Meta { size: get_u64(b, 0), direct, indirect: get_u64(b, 296), type_, name };
                proof {
                    assert(m@.name =~= b@.subrange(312, 512));
                    assert(m@.direct =~= Seq::new(36, |i: int| spec_u64_at(b@, 8 + 8 * i)));
                }
                Some(m)
            },
            None => None,
        }
    }

    /// The block that holds this record.
    pub fn encode(&self) -> (b: [u8; 512])
        ensures
            spec_decode_meta(b@) == Some(self@),
    {
        let mut b = [0u8; 512];
        let ghost b0 = b@;
        put_u64(&mut b, 0, self.size);
        let ghost b1 = b@;
        put_words(&mut b, 8, &self.direct);
        let ghost b2 = b@;
        put_u64(&mut b, 296, self.indirect);
        let ghost b3 = b@;
        put_u64(&mut b, 304, self.type_.tag());
        let ghost b4 = b@;
        let mut i: usize = 0;
        while i < 200
            invariant
                i <= 200,
                forall|j: int| 0 <= j < 312 ==> b@[j] == b4[j],
                forall|j: int| 0 <= j < i ==> b@[312 + j] == self.name@[j],
            decreases 200 - i,
        {
            b[312 + i] = self.name[i];
            i += 1;
        }
        proof {
            lemma_get_put_u64(b0, 0, self.size);
            crate::bytes::lemma_same_word(b2, b1, 0);
            lemma_get_put_u64_other(b2, 296, self.indirect, 0);
            lemma_get_put_u64_other(b3, 304, self.type_.spec_tag(), 0);
            crate::bytes::lemma_same_word(b@, b4, 0);
            lemma_get_put_u64(b2, 296, self.indirect);
            lemma_get_put_u64_other(b3, 304, self.type_.spec_tag(), 296);
            crate::bytes::lemma_same_word(b@, b4, 296);
            lemma_get_put_u64(b3, 304, self.type_.spec_tag());
            crate::bytes::lemma_same_word(b@, b4, 304);
            assert(spec_u64_at(b@, 0) == self.size);
            assert(spec_u64_at(b@, 296) == self.indirect);
            assert(spec_u64_at(b@, 304) == self.type_.spec_tag());
            assert(b@.subrange(312, 512) =~= self.name@);
            assert(Seq::new(36, |i: int| spec_u64_at(b@, 8 + 8 * i)) =~= self.direct@) by {
                assert forall|i: int| 0 <= i < 36 implies spec_u64_at(b@, 8 + 8 * i)
                    == self.direct@[i] by {
                    assert(spec_u64_at(b2, 8 + 8 * i) == self.direct@[i]);
                    lemma_get_put_u64_other(b2, 296, self.indirect, 8 + 8 * i);
                    lemma_get_put_u64_other(b3, 304, self.type_.spec_tag(), 8 + 8 * i);
                    crate::bytes::lemma_same_word(b@, b4, 8 + 8 * i);
                }
            }
        }
        b
    }
}

/// An indirect block: 63 block ids and the level of the block.
///
/// On disk the entries are the first 63 words of the block and the level
/// tag is the last word.
pub struct IndirectBlock {
    pub entries: [u64; 63],
    pub type_: IndirectBlockType,
}

/// The entries of the indirect block held in the bytes `b`.
pub open spec fn spec_entries(b: Seq<u8>) -> Seq<u64> {
    Seq::new(63, |i: int| spec_u64_at(b, 8 * i))
}

/// The level tag of the indirect block held in the bytes `b`.
pub open spec fn spec_level_tag(b: Seq<u8>) -> u64 {
    spec_u64_at(b, 504)
}

impl IndirectBlock {
    /// Reads an indirect block from the bytes of a block; `None` when the
    /// level tag is not one of the four levels.
    pub fn decode(b: &[u8; 512]) -> (r: Option<IndirectBlock>)
        ensures
            match r {
                Some(blk) => {
                    &&& blk.entries@ == spec_entries(b@)
                    &&& IndirectBlockType::spec_from_tag(spec_level_tag(b@)) == Some(blk.type_)
                },
                None => IndirectBlockType::spec_from_tag(spec_level_tag(b@)) is None,
            },
    {
        match IndirectBlockType::from_tag(get_u64(b, 504)) {
            Some(type_) => {
                let mut entries = [0u64; 63];
                get_words(b, 0, &mut entries);
                assert(entries@ =~= spec_entries(b@));
                Some(IndirectBlock { entries, type_ })
            },
            None => None,
        }
    }

    /// The block that holds this indirect block.
    pub fn encode(&self) -> (b: [u8; 512])
        ensures
            spec_entries(b@) == self.entries@,
            spec_level_tag(b@) == self.type_.spec_tag(),
    {
        let mut b = [0u8; 512];
        put_words(&mut b, 0, &self.entries);
        let ghost b1 = b@;
        put_u64(&mut b, 504, self.type_.tag());
        proof {
            lemma_get_put_u64(b1, 504, self.type_.spec_tag());
            assert(spec_entries(b@) =~= self.entries@) by {
                assert forall|i: int| 0 <= i < 63 implies spec_u64_at(b@, 8 * i)
                    == self.entries@[i] by {
                    lemma_get_put_u64_other(b1, 504, self.type_.spec_tag(), 8 * i);
                    assert(spec_u64_at(b1, 0 + 8 * i) == self.entries@[i]);
                }
            }
        }
        b
    }
}

/// The plain bytes of a data block.
pub type DataBlock = [u8; 512];

} // verus!
