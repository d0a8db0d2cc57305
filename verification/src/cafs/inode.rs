//! The in-memory view of an inode.
use super::cache::CacheManager;
use super::layout::{spec_data_blocks, spec_decode_meta, spec_empty_meta, Meta, MetaView};
use super::tree::{spec_data_ids, spec_meta_wf};
use super::NAME_LENGTH_LIMIT;
use crate::fs::{Inode, InodeType};
use crate::BlockDevice;
use vstd::prelude::*;
use vstd::string::StringSliceAdditionalSpecFns;
use vstd::utf8::{decode_utf8, encode_utf8, valid_utf8};

verus! {

/// What the text of a byte string is when the bytes are not valid UTF-8:
/// the text that `String::from_utf8_lossy` makes of them.
pub uninterp spec fn spec_utf8_lossy(bytes: Seq<u8>) -> Seq<char>;

/// The text of a byte string.
pub open spec fn spec_text(bytes: Seq<u8>) -> Seq<char> {
    if valid_utf8(bytes) {
        decode_utf8(bytes)
    } else {
        spec_utf8_lossy(bytes)
    }
}

/// Turns bytes into text.
///
/// Trusted: this is `String::from_utf8_lossy` of the standard library.
/// Its documentation says that valid UTF-8 is returned as it is; of other
/// input the contract says only that the result depends on the bytes alone.
#[verifier::external_body]
fn utf8_lossy(bytes: &[u8]) -> (s: String)
    ensures
        valid_utf8(bytes@) ==> s@ == decode_utf8(bytes@),
        !valid_utf8(bytes@) ==> s@ == spec_utf8_lossy(bytes@),
{
    String::from_utf8_lossy(bytes).to_string()
}

/// `s` in the 200 bytes of a name field: the bytes of `s`, then zeros.
pub open spec fn spec_name_field(s: Seq<u8>) -> Seq<u8> {
    Seq::new(200, |i: int| if i < s.len() {
        s[i]
    } else {
        0u8
    })
}

/// `i` is where the name in `name` ends: at its first zero byte, or at
/// the end of the field when no byte is zero.
pub open spec fn spec_name_end(name: Seq<u8>, i: int) -> bool {
    &&& 0 <= i <= name.len()
    &&& (i == name.len() || name[i] == 0)
    &&& forall|j: int| 0 <= j < i ==> name[j] != 0
}

/// The number of bytes of `name` before its first zero byte.
pub open spec fn spec_name_len(name: Seq<u8>) -> int {
    choose|i: int| spec_name_end(name, i)
}

/// A name ends in one place only.
pub proof fn lemma_name_len(name: Seq<u8>, i: int)
    requires
        spec_name_end(name, i),
    ensures
        spec_name_len(name) == i,
{
    let k = spec_name_len(name);
    assert(spec_name_end(name, k));
    if k < i {
        assert(name[k] != 0);
    } else if i < k {
        assert(name[i] != 0);
    }
}

/// A name that fits the name field and has no zero byte in its encoding
/// is read back from the name field as it was written.
pub proof fn lemma_name_round_trip(name: Seq<char>)
    requires
        encode_utf8(name).len() <= NAME_LENGTH_LIMIT,
        forall|i: int| 0 <= i < encode_utf8(name).len() ==> encode_utf8(name)[i] != 0,
    ensures
        spec_name_len(spec_name_field(encode_utf8(name))) == encode_utf8(name).len(),
        spec_text(
            spec_name_field(encode_utf8(name)).subrange(
                0,
                spec_name_len(spec_name_field(encode_utf8(name))),
            ),
        ) == name,
{
    let bytes = encode_utf8(name);
    let field = spec_name_field(bytes);
    lemma_name_len(field, bytes.len() as int);
    assert(field.subrange(0, bytes.len() as int) =~= bytes);
    vstd::utf8::encode_utf8_valid_utf8(name);
    vstd::utf8::encode_utf8_decode_utf8(name);
}

/// The first `size` bytes of the blocks `blocks` of `d`, one block after
/// the other.
pub open spec fn spec_file_bytes(d: Seq<Seq<u8>>, blocks: Seq<u64>, size: u64) -> Seq<u8> {
    Seq::new(size as nat, |p: int| d[blocks[p / 512] as int][p % 512])
}

/// Block `t` of the contents `c`: 512 bytes of `c` from byte `512 * t`
/// on, with zeros where `c` has ended.
pub open spec fn spec_chunk(c: Seq<u8>, t: int) -> Seq<u8> {
    Seq::new(512, |k: int| if 512 * t + k < c.len() {
        c[512 * t + k]
    } else {
        0u8
    })
}

/// Writes `contents` to the blocks `ids`, 512 bytes to a block, and fills
/// what is left of the last blocks with zeros.
pub fn write_blocks<D: BlockDevice>(
    cache_manager: &mut CacheManager<D>,
    ids: &Vec<u64>,
    contents: &Vec<u8>,
)
    requires
        old(cache_manager).wf(),
        ids@.no_duplicates(),
        forall|t: int| 0 <= t < ids@.len() ==> ids@[t] < old(cache_manager)@.len(),
        512 * ids@.len() <= u64::MAX,
    ensures
        final(cache_manager).wf(),
        super::tree::spec_unchanged_outside(old(cache_manager)@, final(cache_manager)@, ids@),
        forall|t: int|
            0 <= t < ids@.len() ==> final(cache_manager)@[(#[trigger] ids@[t]) as int] == spec_chunk(
                contents@,
                t,
            ),
{
    let ghost d0 = cache_manager@;
    let n = ids.len();
    let len = contents.len();
    let mut j: usize = 0;
    while j < n
        invariant
            j <= n,
            n == ids@.len(),
            len == contents@.len(),
            512 * n <= u64::MAX,
            cache_manager.wf(),
            cache_manager@.len() == d0.len(),
            ids@.no_duplicates(),
            forall|t: int| 0 <= t < n ==> ids@[t] < d0.len(),
            forall|b: int|
                0 <= b < d0.len() && !ids@.contains(b as u64) ==> #[trigger] cache_manager@[b] == d0[b],
            forall|t: int|
                0 <= t < j ==> cache_manager@[(#[trigger] ids@[t]) as int] == spec_chunk(contents@, t),
        decreases n - j,
    {
        let mut block = [0u8; 512];
        let mut k: usize = 0;
        while k < 512
            invariant
                k <= 512,
                j < n,
                512 * n <= u64::MAX,
                len == contents@.len(),
                forall|t: int| 0 <= t < k ==> block@[t] == spec_chunk(contents@, j as int)[t],
                forall|t: int| k <= t < 512 ==> block@[t] == 0,
            decreases 512 - k,
        {
            let p: u64 = 512 * (j as u64) + (k as u64);
            if p < len as u64 {
                block[k] = contents[p as usize];
            }
            k += 1;
        }
        assert(block@ =~= spec_chunk(contents@, j as int));
        let ghost before = cache_manager@;
        cache_manager.write_block(ids[j], &block);
        proof {
            assert forall|t: int| 0 <= t < j implies cache_manager@[(#[trigger] ids@[t]) as int]
                == spec_chunk(contents@, t) by {
                assert(ids@[t] != ids@[j as int]);
                assert(before[ids@[t] as int] == spec_chunk(contents@, t));
            }
            assert forall|b: int| 0 <= b < d0.len() && !ids@.contains(b as u64) implies #[trigger] cache_manager@[b]
                == d0[b] by {
                assert(ids@[j as int] != b as u64);
                assert(before[b] == d0[b]);
            }
        }
        j += 1;
    }
}

/// What an in-memory inode holds, as plain values.
pub struct CaInodeView {
    pub inode_number: u64,
    pub type_: InodeType,
    pub size: u64,
    pub block_id: u64,
    pub offset: usize,
    pub name: Seq<u8>,
    pub blocks: Seq<u64>,
}

/// The in-memory view of an inode: what its record says, where the record
/// is, and the ids of its data blocks in file order.
pub struct CaInode {
    inode_number: u64,
    type_: InodeType,
    size: u64,
    block_id: u64,
    offset: usize,
    name: [u8; 200],
    blocks: Vec<u64>,
}

/// The in-memory view of the inode `inode_number` whose record `m` is
/// stored in block `block_id` of `d`.
pub open spec fn spec_inode_view(d: Seq<Seq<u8>>, inode_number: u64, block_id: u64, m: MetaView) -> CaInodeView {
    CaInodeView {
        inode_number,
        type_: m.type_,
        size: m.size,
        block_id,
        offset: 0,
        name: m.name,
        blocks: spec_data_ids(d, m),
    }
}

impl CaInode {
    /// The inode as plain values.
    pub closed spec fn view(&self) -> CaInodeView {
        CaInodeView {
            inode_number: self.inode_number,
            type_: self.type_,
            size: self.size,
            block_id: self.block_id,
            offset: self.offset,
            name: self.name@,
            blocks: self.blocks@,
        }
    }

    /// Makes the record at `offset` of block `block_id` that of an empty
    /// file or directory named `name`, and returns its in-memory view.
    pub fn new<D: BlockDevice>(
        cache_manager: &mut CacheManager<D>,
        inode_number: u64,
        type_: InodeType,
        block_id: u64,
        offset: usize,
        name: String,
    ) -> (inode: Self)
        requires
            old(cache_manager).wf(),
            block_id < old(cache_manager)@.len(),
            offset + 512 <= 512,
            encode_utf8(name@).len() <= NAME_LENGTH_LIMIT,
        ensures
            final(cache_manager).wf(),
            final(cache_manager)@.len() == old(cache_manager)@.len(),
            forall|b: int|
                0 <= b < old(cache_manager)@.len() && b != block_id ==> final(cache_manager)@[b]
                    == old(cache_manager)@[b],
            spec_decode_meta(final(cache_manager)@[block_id as int]) == Some(
                spec_empty_meta(type_, spec_name_field(encode_utf8(name@))),
            ),
            final(cache_manager)@[block_id as int].len() == 512,
            inode@ == spec_inode_view(
                final(cache_manager)@,
                inode_number,
                block_id,
                spec_empty_meta(type_, spec_name_field(encode_utf8(name@))),
            ),
    {
        let src = name.as_str().as_bytes();
        let n = src.len();
        let mut bytes = [0u8; 200];
        let mut i: usize = 0;
        while i < n
            invariant
                i <= n,
                n == src@.len(),
                n <= 199,
                forall|j: int| 0 <= j < i ==> bytes@[j] == src@[j],
                forall|j: int| i <= j < 200 ==> bytes@[j] == 0,
            decreases n - i,
        {
            bytes[i] = src[i];
            i += 1;
        }
        assert(bytes@ =~= spec_name_field(src@));
        let meta = Meta::new(type_, bytes);
        let block = meta.encode();
        cache_manager.write_block(block_id, &block);
        let inode = Self {
            inode_number,
            type_,
            size: 0,
            block_id,
            offset,
            name: bytes,
            blocks: Vec::new(),
        };
        assert(inode@.blocks =~= spec_data_ids(cache_manager@, meta@));
        inode
    }

    /// The in-memory view of the inode whose record is at `offset` of
    /// block `block_id`.
    pub fn from<D: BlockDevice>(
        inode_number: u64,
        block_id: u64,
        offset: usize,
        cache_manager: &mut CacheManager<D>,
    ) -> (inode: Self)
        requires
            old(cache_manager).wf(),
            block_id < old(cache_manager)@.len(),
            offset + 512 <= 512,
            spec_decode_meta(old(cache_manager)@[block_id as int]) is Some,
            spec_meta_wf(
                old(cache_manager)@,
                spec_decode_meta(old(cache_manager)@[block_id as int])->0,
            ),
        ensures
            final(cache_manager).wf(),
            final(cache_manager)@ == old(cache_manager)@,
            inode@ == spec_inode_view(
                old(cache_manager)@,
                inode_number,
                block_id,
                spec_decode_meta(old(cache_manager)@[block_id as int])->0,
            ),
    {
        let block = cache_manager.read_block(block_id);
        let meta = match Meta::decode(&block) {
            Some(m) => m,
            None => {
                assert(false);
                vstd::pervasive::unreached()
            },
        };
        let (_, blocks) = meta.blocks(cache_manager);
        Self {
            inode_number,
            type_: meta.type_(),
            size: meta.size(),
            block_id,
            offset,
            name: meta.name(),
            blocks,
        }
    }

    /// Records the size and the data blocks that the file has after a
    /// write.
    pub(crate) fn set_contents(&mut self, size: u64, blocks: Vec<u64>)
        ensures
            final(self)@ == (CaInodeView { size, blocks: blocks@, ..old(self)@ }),
    {
        self.size = size;
        self.blocks = blocks;
    }

    /// The block that holds the record.
    pub fn block_id(&self) -> (r: u64)
        ensures
            r == self@.block_id,
    {
        self.block_id
    }

    /// The ids of the data blocks, in file order.
    pub fn blocks(&self) -> (r: &Vec<u64>)
        ensures
            r@ == self@.blocks,
    {
        &self.blocks
    }

    /// The contents of the file: the bytes of its data blocks one after
    /// the other, without what lies beyond the size in the last block.
    pub fn data<D: BlockDevice>(&self, cache_manager: &mut CacheManager<D>) -> (data: Vec<u8>)
        requires
            old(cache_manager).wf(),
            self@.blocks.len() == spec_data_blocks(self@.size),
            forall|i: int| 0 <= i < self@.blocks.len() ==> self@.blocks[i] < old(cache_manager)@.len(),
        ensures
            final(cache_manager).wf(),
            final(cache_manager)@ == old(cache_manager)@,
            data@ == spec_file_bytes(old(cache_manager)@, self@.blocks, self@.size),
    {
        let ghost d = cache_manager@;
        proof {
            cache_manager.lemma_view_wf();
        }
        let mut data: Vec<u8> = Vec::new();
        let n = self.blocks.len();
        let last_size: u64 = if self.size % 512 != 0 {
            self.size % 512
        } else {
            512
        };
        let mut i: usize = 0;
        while i < n
            invariant
                i <= n,
                n == self.blocks@.len(),
                n == spec_data_blocks(self.size),
                cache_manager.wf(),
                cache_manager@ == d,
                crate::blocks_wf(d),
                forall|t: int| 0 <= t < n ==> self.blocks@[t] < d.len(),
                1 <= last_size <= 512,
                last_size == if self.size % 512 != 0 {
                    self.size % 512
                } else {
                    512
                },
                data@ == Seq::new(
                    (if i < n {
                        512 * i
                    } else {
                        self.size as int
                    }) as nat,
                    |p: int| d[self.blocks@[p / 512] as int][p % 512],
                ),
            decreases n - i,
        {
            let id = self.blocks[i];
            let block = cache_manager.read_block(id);
            let take: usize = if i == n - 1 {
                last_size as usize
            } else {
                512
            };
            let ghost base = data@;
            let mut j: usize = 0;
            while j < take
                invariant
                    j <= take <= 512,
                    i < n,
                    block@ == d[id as int],
                    id == self.blocks@[i as int],
                    base.len() == 512 * i,
                    data@.len() == 512 * i + j,
                    forall|p: int| 0 <= p < 512 * i ==> data@[p] == base[p],
                    forall|p: int| 512 * i <= p < 512 * i + j ==> data@[p] == block@[p - 512 * i],
                decreases take - j,
            {
                data.push(block[j]);
                j += 1;
            }
            proof {
                let target = Seq::new(
                    (if i + 1 < n {
                        512 * (i + 1)
                    } else {
                        self.size as int
                    }) as nat,
                    |p: int| d[self.blocks@[p / 512] as int][p % 512],
                );
                assert(data@.len() == target.len());
                assert forall|p: int| 0 <= p < data@.len() implies data@[p] == target[p] by {
                    if p < 512 * i {
                        assert(data@[p] == base[p]);
                    } else {
                        assert(p / 512 == i as int);
                        assert(p % 512 == p - 512 * i);
                    }
                }
                assert(data@ =~= target);
            }
            i += 1;
        }
        assert(data@ =~= spec_file_bytes(d, self@.blocks, self@.size));
        data
    }
}

impl Clone for CaInode {
    fn clone(&self) -> (r: Self)
        ensures
            r@ == self@,
    {
        let mut blocks: Vec<u64> = Vec::new();
        let n = self.blocks.len();
        let mut i: usize = 0;
        while i < n
            invariant
                i <= n,
                n == self.blocks@.len(),
                blocks@ == self.blocks@.subrange(0, i as int),
            decreases n - i,
        {
            blocks.push(self.blocks[i]);
            assert(blocks@ =~= self.blocks@.subrange(0, i + 1));
            i += 1;
        }
        assert(blocks@ =~= self.blocks@);
        CaInode {
            inode_number: self.inode_number,
            type_: self.type_,
            size: self.size,
            block_id: self.block_id,
            offset: self.offset,
            name: self.name,
            blocks,
        }
    }
}

impl Inode for CaInode {
    fn inode_number(&self) -> (r: u64)
        ensures
            r == self@.inode_number,
    {
        self.inode_number
    }

    fn inode_type(&self) -> (r: InodeType)
        ensures
            r == self@.type_,
    {
        self.type_
    }

    fn is_file(&self) -> (r: bool)
        ensures
            r == (self@.type_ == InodeType::File),
    {
        self.type_ == InodeType::File
    }

    /// The name as text: the bytes of the name field before its first
    /// zero byte.
    fn name(&self) -> (r: String)
        ensures
            r@ == spec_text(self@.name.subrange(0, spec_name_len(self@.name))),
    {
        let mut first_zero_index: usize = 0;
        while first_zero_index < 200 && self.name[first_zero_index] != 0
            invariant
                first_zero_index <= 200,
                forall|j: int| 0 <= j < first_zero_index ==> self.name@[j] != 0,
            decreases 200 - first_zero_index,
        {
            first_zero_index += 1;
        }
        proof {
            lemma_name_len(self.name@, first_zero_index as int);
        }
        let head = vstd::slice::slice_subrange(self.name.as_slice(), 0, first_zero_index);
        utf8_lossy(head)
    }

    fn size(&self) -> (r: u64)
        ensures
            r == self@.size,
    {
        self.size
    }
}

} // verus!
