//! The filesystem: block cache, bitmaps and inodes wired together.
use super::bitmap::{spec_count_clear, Bitmap};
use super::cache::CacheManager;
use super::consistency::{
    spec_formatted, spec_geometry_of, spec_init_fits, spec_init_geometry, spec_init_superblock,
    FileView, Geometry,
};
use super::directory::{dir_append, dir_entries, spec_dir_append, spec_dir_entries};
use super::inode::{spec_inode_view, spec_name_field, write_blocks, CaInode};
use super::layout::{spec_data_blocks, spec_index_blocks, Meta, SuperBlock, L4_MAX};
use super::tree::{spec_data_ids, spec_index_ids, spec_sort, spec_unchanged_outside};
use super::INODE_CACHE_SIZE;
use crate::fs::{Inode, InodeType};
use crate::bytes::{get_u64, spec_zeros};
use crate::{blocks_wf, BlockDevice, BLOCK_BITS, BLOCK_SIZE};
use vstd::prelude::*;
use vstd::utf8::encode_utf8;

verus! {

/// A mounted filesystem.
pub struct CAFS<D: BlockDevice> {
    cache_manager: CacheManager<D>,
    inode_bitmap: Bitmap,
    data_bitmap: Bitmap,
    inode_area_start_block: u64,
    data_area_start_block: u64,
    inode_cache: Vec<CaInode>,
}

/// The numbers of the inodes `q`, in their order.
pub open spec fn spec_numbers(q: Seq<CaInode>) -> Seq<u64> {
    Seq::new(q.len(), |k: int| q[k]@.inode_number)
}

/// The numbers of the inodes held in memory after inode `n` has been
/// asked for, when they were `h` before: `h` where inode `n` was held;
/// else `n` is added as the last, and if the cache was full, the last
/// number first takes the place of the first, which is given up.
pub open spec fn spec_held_with(h: Seq<u64>, n: u64) -> Seq<u64> {
    if h.contains(n) {
        h
    } else if h.len() == INODE_CACHE_SIZE {
        h.update(0, h.last()).drop_last().push(n)
    } else {
        h.push(n)
    }
}

/// An inode that has been asked for is held.
pub proof fn lemma_held_again(h: Seq<u64>, n: u64)
    ensures
        spec_held_with(h, n).contains(n),
        spec_held_with(spec_held_with(h, n), n) == spec_held_with(h, n),
{
    let r = spec_held_with(h, n);
    if !h.contains(n) {
        assert(r[r.len() - 1] == n);
    }
}

/// The in-memory inodes `cache` agree with the blocks `d`: each is an
/// inode in use and holds what its record and its index say, and no inode
/// is held twice.
pub open spec fn spec_inodes_agree(g: Geometry, d: Seq<Seq<u8>>, cache: Seq<CaInode>) -> bool {
    &&& cache.len() <= INODE_CACHE_SIZE
    &&& forall|k: int|
        0 <= k < cache.len() ==> g.inode_used(d, (#[trigger] cache[k])@.inode_number as int)
            && cache[k]@ == spec_inode_view(
            d,
            cache[k]@.inode_number,
            g.record_block(cache[k]@.inode_number as int) as u64,
            g.meta(d, cache[k]@.inode_number as int),
        )
    &&& forall|k: int, l: int|
        0 <= k < l < cache.len() ==> (#[trigger] cache[k])@.inode_number != (#[trigger] cache[l])@.inode_number
}

/// In-memory inodes that agree with the blocks keep agreeing when every
/// inode in use keeps its record and its blocks.
pub proof fn lemma_agree_kept(g: Geometry, d: Seq<Seq<u8>>, e: Seq<Seq<u8>>, cache: Seq<CaInode>)
    requires
        spec_inodes_agree(g, d, cache),
        g.same_inodes(d, e),
        forall|i: int| g.inode_used(d, i) ==> #[trigger] g.same_inode(d, e, i),
    ensures
        spec_inodes_agree(g, e, cache),
{
    assert forall|k: int| 0 <= k < cache.len() implies g.inode_used(
        e,
        (#[trigger] cache[k])@.inode_number as int,
    ) && cache[k]@ == spec_inode_view(
        e,
        cache[k]@.inode_number,
        g.record_block(cache[k]@.inode_number as int) as u64,
        g.meta(e, cache[k]@.inode_number as int),
    ) by {
        let i = cache[k]@.inode_number as int;
        assert(g.inode_used(d, i));
        assert(g.inode_used(e, i) == g.inode_used(d, i));
        assert(g.same_inode(d, e, i));
    }
}

/// In-memory inodes that agree with the blocks keep agreeing when every
/// inode that was in use is still in use and is as it was.
pub proof fn lemma_agree_more(g: Geometry, d: Seq<Seq<u8>>, e: Seq<Seq<u8>>, cache: Seq<CaInode>)
    requires
        spec_inodes_agree(g, d, cache),
        forall|i: int| g.inode_used(d, i) ==> #[trigger] g.same_inode(d, e, i) && g.inode_used(e, i),
    ensures
        spec_inodes_agree(g, e, cache),
{
    assert forall|k: int| 0 <= k < cache.len() implies g.inode_used(
        e,
        (#[trigger] cache[k])@.inode_number as int,
    ) && cache[k]@ == spec_inode_view(
        e,
        cache[k]@.inode_number,
        g.record_block(cache[k]@.inode_number as int) as u64,
        g.meta(e, cache[k]@.inode_number as int),
    ) by {
        let i = cache[k]@.inode_number as int;
        assert(g.inode_used(d, i));
        assert(g.same_inode(d, e, i));
    }
}

/// In-memory inodes that agreed with the blocks agree again after a
/// change to one inode, once the in-memory inode of that number has been
/// brought up to date.
pub proof fn lemma_agree_updated(
    g: Geometry,
    d: Seq<Seq<u8>>,
    e: Seq<Seq<u8>>,
    q0: Seq<CaInode>,
    q1: Seq<CaInode>,
    slot: int,
)
    requires
        spec_inodes_agree(g, d, q0),
        0 <= slot < q0.len(),
        q1.len() == q0.len(),
        forall|k: int| 0 <= k < q0.len() && k != slot ==> q1[k] == q0[k],
        q1[slot]@.inode_number == q0[slot]@.inode_number,
        spec_inode_agrees(g, e, q1[slot]),
        g.same_inodes(d, e),
        forall|i: int|
            g.inode_used(d, i) && i != q0[slot]@.inode_number ==> #[trigger] g.same_inode(d, e, i),
    ensures
        spec_inodes_agree(g, e, q1),
{
    assert forall|k: int| 0 <= k < q1.len() implies g.inode_used(
        e,
        (#[trigger] q1[k])@.inode_number as int,
    ) && q1[k]@ == spec_inode_view(
        e,
        q1[k]@.inode_number,
        g.record_block(q1[k]@.inode_number as int) as u64,
        g.meta(e, q1[k]@.inode_number as int),
    ) by {
        if k != slot {
            assert(q1[k] == q0[k]);
            let i = q0[k]@.inode_number as int;
            if k < slot {
                assert(q0[k]@.inode_number != q0[slot]@.inode_number);
            } else {
                assert(q0[slot]@.inode_number != q0[k]@.inode_number);
            }
            assert(g.inode_used(d, i));
            assert(g.inode_used(e, i) == g.inode_used(d, i));
            assert(g.same_inode(d, e, i));
        }
    }
    assert forall|k: int, l: int| 0 <= k < l < q1.len() implies (#[trigger] q1[k])@.inode_number != (
    #[trigger] q1[l])@.inode_number by {
        assert(q1[k]@.inode_number == q0[k]@.inode_number);
        assert(q1[l]@.inode_number == q0[l]@.inode_number);
        assert(q0[k]@.inode_number != q0[l]@.inode_number);
    }
}

/// The files of `d` and `e`, by inode number.
pub open spec fn spec_files(g: Geometry, d: Seq<Seq<u8>>) -> Map<u64, FileView> {
    Map::new(|i: u64| g.inode_used(d, i as int), |i: u64| g.file(d, i as int))
}

/// Where the inodes in use are the same and each is as it was, the files
/// are the same.
pub proof fn lemma_same_files(g: Geometry, d: Seq<Seq<u8>>, e: Seq<Seq<u8>>)
    requires
        g.same_inodes(d, e),
        forall|i: int| g.inode_used(d, i) ==> #[trigger] g.same_inode(d, e, i),
    ensures
        spec_files(g, e) == spec_files(g, d),
{
    assert(spec_files(g, e) =~= spec_files(g, d)) by {
        assert forall|i: u64| g.inode_used(d, i as int) implies g.file(e, i as int) == g.file(
            d,
            i as int,
        ) by {
            assert(g.same_inode(d, e, i as int));
        }
        assert forall|i: u64| g.inode_used(e, i as int) == g.inode_used(d, i as int) by {}
    }
}

/// The in-memory inode `c` says what the blocks `d` hold of its inode.
pub open spec fn spec_inode_agrees(g: Geometry, d: Seq<Seq<u8>>, c: CaInode) -> bool {
    &&& g.inode_used(d, c@.inode_number as int)
    &&& c@ == spec_inode_view(
        d,
        c@.inode_number,
        g.record_block(c@.inode_number as int) as u64,
        g.meta(d, c@.inode_number as int),
    )
}

/// Giving up the first of the in-memory inodes leaves the others in
/// agreement with the blocks.
proof fn lemma_agree_evict(g: Geometry, d: Seq<Seq<u8>>, q0: Seq<CaInode>, q1: Seq<CaInode>)
    requires
        spec_inodes_agree(g, d, q0),
        q0.len() > 0,
        q1 == q0.update(0, q0.last()).drop_last(),
    ensures
        spec_inodes_agree(g, d, q1),
        q1.len() == q0.len() - 1,
        forall|k: int| 0 <= k < q1.len() ==> q0.contains(#[trigger] q1[k]),
{
    assert forall|k: int| 0 <= k < q1.len() implies #[trigger] q1[k] == q0[if k == 0 {
        q0.len() - 1
    } else {
        k
    }] by {}
    assert forall|k: int| 0 <= k < q1.len() implies q0.contains(#[trigger] q1[k]) by {
        let kk = if k == 0 {
            q0.len() - 1
        } else {
            k
        };
        assert(q0[kk] == q1[k]);
    }
    assert forall|k: int, l: int| 0 <= k < l < q1.len() implies (#[trigger] q1[k])@.inode_number
        != (#[trigger] q1[l])@.inode_number by {
        let kk = if k == 0 {
            q0.len() - 1
        } else {
            k
        };
        assert(q1[k] == q0[kk]);
        assert(q1[l] == q0[l]);
        if kk < l {
            assert(q0[kk]@.inode_number != q0[l]@.inode_number);
        } else {
            assert(q0[l]@.inode_number != q0[kk]@.inode_number);
        }
    }
    assert forall|k: int| 0 <= k < q1.len() implies g.inode_used(
        d,
        (#[trigger] q1[k])@.inode_number as int,
    ) && q1[k]@ == spec_inode_view(
        d,
        q1[k]@.inode_number,
        g.record_block(q1[k]@.inode_number as int) as u64,
        g.meta(d, q1[k]@.inode_number as int),
    ) by {
        let kk = if k == 0 {
            q0.len() - 1
        } else {
            k
        };
        assert(q1[k] == q0[kk]);
    }
}

impl<D: BlockDevice> CAFS<D> {
    /// The blocks as the filesystem sees them through its cache.
    pub closed spec fn disk(&self) -> Seq<Seq<u8>> {
        self.cache_manager@
    }

    /// The block cache.
    pub closed spec fn spec_cache(&self) -> CacheManager<D> {
        self.cache_manager
    }

    /// Where the regions lie.
    pub closed spec fn geometry(&self) -> Geometry {
        Geometry {
            inode_bitmap_start: self.inode_bitmap.spec_start(),
            inode_bitmap_blocks: self.inode_bitmap.spec_blocks(),
            inode_area_start: self.inode_area_start_block,
            data_bitmap_start: self.data_bitmap.spec_start(),
            data_bitmap_blocks: self.data_bitmap.spec_blocks(),
            data_area_start: self.data_area_start_block,
        }
    }

    /// The inodes held in memory.
    pub closed spec fn spec_inode_cache(&self) -> Seq<CaInode> {
        self.inode_cache@
    }

    /// The invariant of a mounted filesystem: the cache is well-formed,
    /// the blocks seen through it hold a consistent filesystem, and the
    /// inodes held in memory agree with the blocks.
    #[verifier::opaque]
    pub closed spec fn wf(&self) -> bool {
        &&& self.cache_manager.wf()
        &&& self.geometry().fs_ok(self.cache_manager@)
        &&& spec_inodes_agree(self.geometry(), self.cache_manager@, self.inode_cache@)
    }

    /// What the invariant says of the cache and of the blocks.
    pub proof fn lemma_wf(&self)
        requires
            self.wf(),
        ensures
            self.spec_cache().wf(),
            self.disk() == self.spec_cache()@,
            self.geometry().fs_ok(self.disk()),
            spec_inodes_agree(self.geometry(), self.disk(), self.spec_inode_cache()),
    {
        reveal(CAFS::wf);
    }

    /// Whether inode `i` is in use.
    pub open spec fn spec_exists(&self, i: u64) -> bool {
        self.geometry().inode_used(self.disk(), i as int)
    }

    /// The inodes in use are the inodes of the files.
    pub proof fn lemma_exists(&self, i: u64)
        ensures
            self@.dom().contains(i) <==> self.spec_exists(i),
            self.spec_exists(i) ==> self@[i] == self.geometry().file(self.disk(), i as int),
    {
    }

    /// The files and directories of the filesystem, by inode number.
    pub open spec fn view(&self) -> Map<u64, FileView> {
        spec_files(self.geometry(), self.disk())
    }

    /// The number of free blocks of the data area.
    pub open spec fn spec_free_blocks(&self) -> nat {
        spec_count_clear(
            self.disk(),
            self.geometry().data_bitmap_start as int,
            self.geometry().data_count() as nat,
        )
    }

    /// The number of blocks that inode `i` uses in the data area, index
    /// blocks and data blocks together.
    pub open spec fn spec_used_blocks(&self, i: u64) -> int {
        self.geometry().owned(self.disk(), i as int).len() as int
    }

    /// The block and the offset within the block of the record of inode
    /// `id`. A record fills a block, so the offset is zero.
    pub fn inode_pos_of(&self, id: u64) -> (pos: (u64, usize))
        requires
            self.geometry().record_block(id as int) <= u64::MAX,
        ensures
            pos.0 == self.geometry().record_block(id as int),
            pos.1 == 0,
    {
        let inode_size: u64 = 512;
        let inodes_per_block = BLOCK_SIZE / inode_size;
        assert(inodes_per_block == 1);
        let block_id = self.inode_area_start_block + id / inodes_per_block;
        (block_id, ((id % inodes_per_block) * inode_size) as usize)
    }

    /// Writes every modified block back to the device.
    pub fn flush(&mut self)
        requires
            old(self).wf(),
        ensures
            final(self).wf(),
            final(self)@ == old(self)@,
            final(self).disk() == old(self).disk(),
            final(self).geometry() == old(self).geometry(),
            final(self).spec_cache().is_clean(),
            final(self).spec_inode_cache() == old(self).spec_inode_cache(),
            final(self).spec_cache().spec_ids() == old(self).spec_cache().spec_ids(),
            forall|i: int|
                0 <= i < final(self).spec_cache().slots().len() ==> !(#[trigger] final(self).spec_cache().slots()[i]).1.spec_modified(),
    {
        reveal(CAFS::wf);
        self.cache_manager.flush()
    }

    /// The size in bytes that the record of inode `i` gives.
    pub open spec fn spec_size(&self, i: u64) -> u64 {
        self.geometry().meta(self.disk(), i as int).size
    }

    /// The free bytes and the total bytes of the data area: 512 for each
    /// clear bit, and 512 for each bit, of the data bitmap.
    pub open spec fn spec_df(&self) -> (int, int) {
        (self.spec_free_blocks() as int * 512, self.geometry().data_count() as int * 512)
    }

    /// The free bytes and the total bytes of the data area.
    pub fn df(&mut self) -> (r: (u64, u64))
        requires
            old(self).wf(),
            old(self).geometry().data_count() * 512 <= u64::MAX,
        ensures
            final(self).wf(),
            final(self)@ == old(self)@,
            final(self).disk() == old(self).disk(),
            final(self).geometry() == old(self).geometry(),
            r.0 == old(self).spec_free_blocks() * 512,
            r.1 == old(self).geometry().data_count() * 512,
            r.0 == old(self).spec_df().0,
            r.1 == old(self).spec_df().1,
            final(self).spec_df() == old(self).spec_df(),
            final(self).spec_inode_cache() == old(self).spec_inode_cache(),
    {
        reveal(CAFS::wf);
        let ghost d = self.cache_manager@;
        let ghost g = self.geometry();
        proof {
            g.lemma_fs_ok(d);
        }
        let free = self.data_bitmap.free_count(&mut self.cache_manager);
        let total = self.data_bitmap.total_count();
        proof {
            super::bitmap::lemma_counts_add_up(d, g.data_bitmap_start as int, g.data_count() as nat);
        }
        (free * BLOCK_SIZE, total * BLOCK_SIZE)
    }

    /// Gives up the filesystem and hands out its device. Blocks that were
    /// modified and not flushed are missing from it; after a flush the
    /// device holds the filesystem as it is and can be mounted again.
    pub fn into_device(self) -> (d: D)
        ensures
            d == self.spec_cache().dev(),
            self.wf() && self.spec_cache().is_clean() ==> d.contents() == self.disk()
                && spec_formatted(d.contents()) && blocks_wf(d.contents()) && spec_geometry_of(
                SuperBlock::spec_decode(d.contents()[0]),
            ) == self.geometry(),
    {
        proof {
            if self.wf() && self.spec_cache().is_clean() {
                self.lemma_remount();
            }
        }
        self.cache_manager.into_device()
    }

    /// What a filesystem has written to its device can be mounted again,
    /// and mounting it gives the same regions and the same files.
    pub proof fn lemma_remount(&self)
        requires
            self.wf(),
            self.spec_cache().is_clean(),
        ensures
            self.spec_cache().dev().contents() == self.disk(),
            blocks_wf(self.disk()),
            spec_formatted(self.disk()),
            spec_geometry_of(SuperBlock::spec_decode(self.disk()[0])) == self.geometry(),
            spec_files(
                spec_geometry_of(SuperBlock::spec_decode(self.disk()[0])),
                self.spec_cache().dev().contents(),
            ) == self@,
    {
        reveal(CAFS::wf);
        super::consistency::lemma_formatted(self.geometry(), self.disk());
        self.geometry().lemma_fs_ok(self.disk());
    }

    /// Nothing but the bit of the data block `x` differs between `old`
    /// and this filesystem: the regions, the inodes in memory, the files
    /// and the blocks that each inode refers to are the same.
    pub open spec fn spec_only_bit_changed(&self, old: &Self, x: u64) -> bool {
        &&& self.geometry() == old.geometry()
        &&& self.spec_inode_cache() == old.spec_inode_cache()
        &&& self.geometry().data_bit_changed(old.disk(), self.disk(), x)
        &&& self.geometry().same_inodes(old.disk(), self.disk())
        &&& forall|i: int|
            self.geometry().inode_used(old.disk(), i) ==> #[trigger] self.geometry().same_inode(
                old.disk(),
                self.disk(),
                i,
            )
        &&& self@ == old@
    }

    /// Takes a free block of the data area into use and returns its id.
    pub fn alloc_data(&mut self) -> (id: u64)
        requires
            old(self).wf(),
            old(self).spec_free_blocks() > 0,
        ensures
            final(self).wf(),
            final(self).spec_only_bit_changed(old(self), id),
            !old(self).geometry().data_used(old(self).disk(), id),
            final(self).geometry().data_used(final(self).disk(), id),
            forall|x: u64|
                old(self).geometry().data_area_start <= x < id ==> old(self).geometry().data_used(
                    old(self).disk(),
                    x,
                ),
            final(self).spec_free_blocks() == old(self).spec_free_blocks() - 1,
    {
        reveal(CAFS::wf);
        let ghost d = self.cache_manager@;
        let ghost g = self.geometry();
        let ghost start = g.data_bitmap_start as int;
        proof {
            g.lemma_fs_ok(d);
        }
        match self.data_bitmap.allocate(&mut self.cache_manager) {
            Some(bit) => {
                let id = bit + self.data_area_start_block;
                proof {
                    let e = self.cache_manager@;
                    assert forall|x: u64| g.data_area_start <= x < id implies g.data_used(d, x) by {
                        assert(self.data_bitmap.spec_is_set(d, x - g.data_area_start));
                    }
                    self.data_bitmap.lemma_flipped(d, e, bit as int);
                    assert(!g.data_used(d, id));
                    g.lemma_unused_is_unowned(d, id);
                    g.lemma_data_bit_flipped(d, e, bit as int);
                    lemma_agree_kept(g, d, e, self.inode_cache@);
                    lemma_same_files(g, d, e);
                }
                id
            },
            None => {
                proof {
                    self.data_bitmap.lemma_full(d);
                    assert(false);
                }
                vstd::pervasive::unreached()
            },
        }
    }

    /// Gives the block `id` of the data area, which is in use and which
    /// no inode refers to, back to the free blocks.
    pub fn dealloc_data(&mut self, id: u64)
        requires
            old(self).wf(),
            old(self).geometry().data_used(old(self).disk(), id),
            forall|i: int|
                old(self).geometry().inode_used(old(self).disk(), i) ==> !(#[trigger] old(self).geometry().owned(old(self).disk(), i)).contains(id),
        ensures
            final(self).wf(),
            final(self).spec_only_bit_changed(old(self), id),
            !final(self).geometry().data_used(final(self).disk(), id),
            final(self).spec_free_blocks() == old(self).spec_free_blocks() + 1,
    {
        reveal(CAFS::wf);
        let ghost d = self.cache_manager@;
        let ghost g = self.geometry();
        proof {
            g.lemma_fs_ok(d);
        }
        let bit = id - self.data_area_start_block;
        self.data_bitmap.dealloc(&mut self.cache_manager, bit);
        proof {
            let e = self.cache_manager@;
            self.data_bitmap.lemma_flipped(d, e, bit as int);
            g.lemma_data_bit_flipped(d, e, bit as int);
            lemma_agree_kept(g, d, e, self.inode_cache@);
            lemma_same_files(g, d, e);
        }
    }

    /// Nothing on disk differs between `old` and this filesystem; only
    /// the inodes held in memory may.
    pub open spec fn spec_same_disk(&self, old: &Self) -> bool {
        &&& self.geometry() == old.geometry()
        &&& self.disk() == old.disk()
        &&& self@ == old@
    }

    /// Whether inode `inode_number` is in use.
    pub fn contains(&mut self, inode_number: u64) -> (r: bool)
        requires
            old(self).wf(),
        ensures
            final(self).wf(),
            final(self).spec_same_disk(old(self)),
            final(self).spec_inode_cache() == old(self).spec_inode_cache(),
            r == old(self).spec_exists(inode_number),
    {
        reveal(CAFS::wf);
        proof {
            self.geometry().lemma_fs_ok(self.cache_manager@);
        }
        if inode_number >= self.inode_bitmap.total_count() {
            return false;
        }
        self.inode_bitmap.get(&mut self.cache_manager, inode_number)
    }

    /// The slot of the in-memory inode with number `inode_number`, if
    /// there is one.
    fn find_inode(&self, inode_number: u64) -> (r: Option<usize>)
        ensures
            match r {
                Some(k) => k < self.inode_cache@.len() && self.inode_cache@[k as int]@.inode_number
                    == inode_number,
                None => forall|k: int|
                    0 <= k < self.inode_cache@.len() ==> (#[trigger] self.inode_cache@[k])@.inode_number
                        != inode_number,
            },
    {
        let n = self.inode_cache.len();
        let mut k: usize = 0;
        while k < n
            invariant
                k <= n,
                n == self.inode_cache@.len(),
                forall|j: int|
                    0 <= j < k ==> (#[trigger] self.inode_cache@[j])@.inode_number != inode_number,
            decreases n - k,
        {
            if self.inode_cache[k].inode_number() == inode_number {
                return Some(k);
            }
            k += 1;
        }
        None
    }

    /// The numbers of the inodes held in memory, in the order of their
    /// slots. The filesystem being consistent, each of them is held as
    /// its record and its index say.
    pub open spec fn spec_held(&self) -> Seq<u64> {
        spec_numbers(self.spec_inode_cache())
    }

    /// Taking in an inode whose number no held inode has does to the
    /// numbers what asking for it does.
    proof fn lemma_numbers_with(q: Seq<CaInode>, inode: CaInode)
        requires
            forall|k: int| 0 <= k < q.len() ==> (#[trigger] q[k])@.inode_number != inode@.inode_number,
        ensures
            spec_numbers(Self::spec_cache_with(q, inode)) == spec_held_with(
                spec_numbers(q),
                inode@.inode_number,
            ),
    {
        let h = spec_numbers(q);
        let n = inode@.inode_number;
        if h.contains(n) {
            let t = choose|t: int| 0 <= t < h.len() && h[t] == n;
            assert(q[t]@.inode_number == n);
        }
        assert(spec_numbers(Self::spec_cache_with(q, inode)) =~= spec_held_with(h, n));
    }

    /// Putting an inode in the place of a held inode of its number
    /// leaves the numbers as they are, which is what asking for it does.
    proof fn lemma_numbers_hit(q: Seq<CaInode>, k: int, inode: CaInode)
        requires
            0 <= k < q.len(),
            q[k]@.inode_number == inode@.inode_number,
        ensures
            spec_numbers(q.update(k, inode)) == spec_numbers(q),
            spec_held_with(spec_numbers(q), inode@.inode_number) == spec_numbers(q),
    {
        let h = spec_numbers(q);
        assert(h[k] == inode@.inode_number);
        assert(spec_numbers(q.update(k, inode)) =~= h);
    }

    /// Where nothing but one inode has changed, the same inodes are held.
    pub proof fn lemma_changed_held(&self, old: &Self, n: u64)
        requires
            self.spec_inode_changed(old, n),
        ensures
            self.spec_held() == old.spec_held(),
    {
        assert(self.spec_held() =~= old.spec_held());
    }

    /// The inodes held in memory after `inode`, whose number none of
    /// them has, has been taken in: it is added as the last; if the cache
    /// was full, the last inode first takes the place of the first, which
    /// is given up.
    pub open spec fn spec_cache_with(q: Seq<CaInode>, inode: CaInode) -> Seq<CaInode> {
        if q.len() == INODE_CACHE_SIZE {
            q.update(0, q.last()).drop_last().push(inode)
        } else {
            q.push(inode)
        }
    }

    /// Takes `inode_meta` among the inodes held in memory. It takes the
    /// place of an inode of the same number; else it is added as the
    /// last, and when the cache is full the inode in the first slot is
    /// given up for it: inodes are only borrowed for the length of a
    /// call, so none is in use when this runs.
    #[verifier::spinoff_prover]
    #[verifier::rlimit(40)]
    pub fn add_inode_cache(&mut self, inode_meta: CaInode)
        requires
            old(self).wf(),
            spec_inode_agrees(old(self).geometry(), old(self).disk(), inode_meta),
        ensures
            final(self).wf(),
            final(self).spec_same_disk(old(self)),
            final(self).spec_inode_cache().contains(inode_meta),
            forall|k: int|
                0 <= k < old(self).spec_inode_cache().len() && (#[trigger] old(self).spec_inode_cache()[k])@.inode_number == inode_meta@.inode_number ==> final(self).spec_inode_cache() == old(self).spec_inode_cache().update(k, inode_meta),
            (forall|k: int|
                0 <= k < old(self).spec_inode_cache().len() ==> (#[trigger] old(self).spec_inode_cache()[k])@.inode_number != inode_meta@.inode_number) ==> final(self).spec_inode_cache() == Self::spec_cache_with(old(self).spec_inode_cache(), inode_meta),
            final(self).spec_held() == spec_held_with(
                old(self).spec_held(),
                inode_meta@.inode_number,
            ),
    {
        reveal(CAFS::wf);
        let ghost g = self.geometry();
        let ghost d = self.cache_manager@;
        let ghost q0 = self.inode_cache@;
        match self.find_inode(inode_meta.inode_number()) {
            Some(k) => {
                self.inode_cache[k] = inode_meta;
                proof {
                    let q1 = self.inode_cache@;
                    assert(q1[k as int] == inode_meta);
                    assert forall|a: int| 0 <= a < q1.len() && a != k implies #[trigger] q1[a]
                        == q0[a] by {}
                    assert(spec_inodes_agree(g, d, q1));
                    assert(q1 =~= q0.update(k as int, inode_meta));
                    Self::lemma_numbers_hit(q0, k as int, inode_meta);
                    assert forall|j: int|
                        0 <= j < q0.len() && (#[trigger] q0[j])@.inode_number
                            == inode_meta@.inode_number implies j == k by {
                        if j < k {
                            assert(q0[j]@.inode_number != q0[k as int]@.inode_number);
                        } else if k < j {
                            assert(q0[k as int]@.inode_number != q0[j]@.inode_number);
                        }
                    }
                }
            },
            None => {
                if self.inode_cache.len() == INODE_CACHE_SIZE {
                    let evicted = self.inode_cache.swap_remove(0);
                    proof {
                        lemma_agree_evict(g, d, q0, self.inode_cache@);
                    }
                }
                let ghost q1 = self.inode_cache@;
                proof {
                    assert forall|a: int| 0 <= a < q1.len() implies (#[trigger] q1[a])@.inode_number
                        != inode_meta@.inode_number by {
                        if q1.len() != q0.len() {
                            assert(q0.contains(q1[a]));
                            let b = choose|b: int| 0 <= b < q0.len() && q0[b] == q1[a];
                            assert(q0[b]@.inode_number != inode_meta@.inode_number);
                        }
                    }
                }
                self.inode_cache.push(inode_meta);
                proof {
                    let q2 = self.inode_cache@;
                    assert(q2[q1.len() as int] == inode_meta);
                    assert forall|a: int| 0 <= a < q1.len() implies #[trigger] q2[a] == q1[a] by {}
                    assert(spec_inodes_agree(g, d, q2));
                    assert(q2 =~= Self::spec_cache_with(q0, inode_meta));
                    assert forall|a: int| 0 <= a < q0.len() implies (#[trigger] q0[a])@.inode_number
                        != inode_meta@.inode_number by {}
                    Self::lemma_numbers_with(q0, inode_meta);
                }
            },
        }
    }

    /// The slot of the in-memory inode with number `inode_number`. The
    /// inode is read from its record first when no slot holds it, and
    /// added as the last; when the cache is full the inode in the first
    /// slot is given up for it.
    #[verifier::spinoff_prover]
    #[verifier::rlimit(40)]
    fn cainode(&mut self, inode_number: u64) -> (slot: usize)
        requires
            old(self).wf(),
            old(self).spec_exists(inode_number),
        ensures
            final(self).wf(),
            final(self).spec_same_disk(old(self)),
            slot < final(self).spec_inode_cache().len(),
            final(self).spec_inode_cache()[slot as int]@.inode_number == inode_number,
            spec_inode_agrees(
                final(self).geometry(),
                final(self).disk(),
                final(self).spec_inode_cache()[slot as int],
            ),
            final(self).spec_held() == spec_held_with(old(self).spec_held(), inode_number),
    {
        reveal(CAFS::wf);
        let ghost g = self.geometry();
        let ghost d = self.cache_manager@;
        let ghost q0 = self.inode_cache@;
        match self.find_inode(inode_number) {
            Some(k) => {
                proof {
                    Self::lemma_numbers_hit(q0, k as int, q0[k as int]);
                }
                k
            },
            None => {
                if self.inode_cache.len() == INODE_CACHE_SIZE {
                    let evicted = self.inode_cache.swap_remove(0);
                    proof {
                        lemma_agree_evict(g, d, q0, self.inode_cache@);
                    }
                }
                let ghost q1 = self.inode_cache@;
                proof {
                    assert forall|a: int| 0 <= a < q1.len() implies (#[trigger] q1[a])@.inode_number
                        != inode_number by {
                        if q1.len() != q0.len() {
                            assert(q0.contains(q1[a]));
                            let b = choose|b: int| 0 <= b < q0.len() && q0[b] == q1[a];
                            assert(q0[b]@.inode_number != inode_number);
                        }
                    }
                    g.lemma_fs_ok(d);
                    assert(g.inode_ok(d, inode_number as int));
                }
                let (block_id, offset) = self.inode_pos_of(inode_number);
                let inode = CaInode::from(inode_number, block_id, offset, &mut self.cache_manager);
                self.inode_cache.push(inode);
                proof {
                    let q2 = self.inode_cache@;
                    assert(q2[q1.len() as int] == inode);
                    assert forall|a: int| 0 <= a < q1.len() implies #[trigger] q2[a] == q1[a] by {}
                    assert(spec_inodes_agree(g, d, q2));
                    assert(q2 =~= Self::spec_cache_with(q0, inode));
                    Self::lemma_numbers_with(q0, inode);
                }
                self.inode_cache.len() - 1
            },
        }
    }

    /// The in-memory view of inode `inode_number`.
    pub fn inode(&mut self, inode_number: u64) -> (inode: CaInode)
        requires
            old(self).wf(),
            old(self).spec_exists(inode_number),
        ensures
            final(self).wf(),
            final(self).spec_same_disk(old(self)),
            inode@.inode_number == inode_number,
            spec_inode_agrees(final(self).geometry(), final(self).disk(), inode),
            final(self).spec_held() == spec_held_with(old(self).spec_held(), inode_number),
    {
        let slot = self.cainode(inode_number);
        self.inode_cache[slot].clone()
    }

    /// The contents of inode `inode_number`.
    pub fn data(&mut self, inode_number: u64) -> (data: Vec<u8>)
        requires
            old(self).wf(),
            old(self).spec_exists(inode_number),
        ensures
            final(self).wf(),
            final(self).spec_same_disk(old(self)),
            data@ == old(self)@[inode_number].data,
            final(self).spec_held() == spec_held_with(old(self).spec_held(), inode_number),
    {
        reveal(CAFS::wf);
        let slot = self.cainode(inode_number);
        proof {
            let g = self.geometry();
            let d = self.cache_manager@;
            g.lemma_fs_ok(d);
            assert(g.inode_ok(d, inode_number as int));
            let m = g.meta(d, inode_number as int);
            super::tree::lemma_data_ids_nonzero(d, m);
            let ids = spec_data_ids(d, m);
            let idx = spec_index_ids(d, m.indirect, m.size);
            assert forall|i: int| 0 <= i < ids.len() implies ids[i] < d.len() by {
                assert(g.owned(d, inode_number as int)[idx.len() + i] == ids[i]);
                assert(g.data_used(d, ids[i]));
            }
        }
        self.inode_cache[slot].data(&mut self.cache_manager)
    }

    /// Every file is in this filesystem what it was in `old`, and so are
    /// the regions and the inodes held in memory.
    pub open spec fn spec_files_kept(&self, old: &Self) -> bool {
        &&& self.geometry() == old.geometry()
        &&& self.spec_inode_cache() == old.spec_inode_cache()
        &&& self.disk().len() == old.disk().len()
        &&& self.geometry().same_inodes(old.disk(), self.disk())
        &&& forall|i: int|
            self.geometry().inode_used(old.disk(), i) ==> #[trigger] self.geometry().same_inode(
                old.disk(),
                self.disk(),
                i,
            )
        &&& self@ == old@
    }

    /// Files that were kept twice over were kept.
    pub proof fn lemma_files_kept_twice(&self, mid: &Self, old: &Self)
        requires
            mid.spec_files_kept(old),
            self.spec_files_kept(mid),
        ensures
            self.spec_files_kept(old),
    {
        let g = self.geometry();
        assert forall|i: int| g.inode_used(old.disk(), i) implies #[trigger] g.same_inode(
            old.disk(),
            self.disk(),
            i,
        ) by {
            assert(g.inode_used(mid.disk(), i) == g.inode_used(old.disk(), i));
            assert(g.same_inode(old.disk(), mid.disk(), i));
            assert(g.same_inode(mid.disk(), self.disk(), i));
        }
        assert forall|i: int| #[trigger] g.inode_used(self.disk(), i) == g.inode_used(
            old.disk(),
            i,
        ) by {
            assert(g.inode_used(mid.disk(), i) == g.inode_used(old.disk(), i));
            assert(g.inode_used(self.disk(), i) == g.inode_used(mid.disk(), i));
        }
    }

    /// Takes `count` free blocks of the data area into use and returns
    /// their ids in the order in which they were taken.
    #[verifier::spinoff_prover]
    #[verifier::rlimit(40)]
    fn alloc_blocks(&mut self, count: u64) -> (ids: Vec<u64>)
        requires
            old(self).wf(),
            count <= old(self).spec_free_blocks(),
        ensures
            final(self).wf(),
            final(self).spec_files_kept(old(self)),
            ids@.len() == count,
            ids@.no_duplicates(),
            forall|t: int|
                0 <= t < ids@.len() ==> !old(self).geometry().data_used(
                    old(self).disk(),
                    #[trigger] ids@[t],
                ) && final(self).geometry().data_used(final(self).disk(), ids@[t]),
            forall|x: u64|
                old(self).geometry().data_used(old(self).disk(), x) ==> #[trigger] final(self).geometry().data_used(final(self).disk(), x),
            forall|x: u64|
                #[trigger] final(self).geometry().data_used(final(self).disk(), x) <==> (old(self).geometry().data_used(old(self).disk(), x) || ids@.contains(x)),
            final(self).spec_free_blocks() == old(self).spec_free_blocks() - count,
            old(self).geometry().lowest_free(old(self).disk(), ids@),
    {
        let ghost g = self.geometry();
        let ghost d0 = self.cache_manager@;
        let mut ids: Vec<u64> = Vec::new();
        let mut k: u64 = 0;
        while k < count
            invariant
                k <= count,
                self.wf(),
                self.spec_files_kept(old(self)),
                g == self.geometry(),
                d0 == old(self).disk(),
                ids@.len() == k,
                ids@.no_duplicates(),
                count <= old(self).spec_free_blocks(),
                self.spec_free_blocks() == old(self).spec_free_blocks() - k,
                forall|t: int|
                    0 <= t < ids@.len() ==> !g.data_used(d0, #[trigger] ids@[t]) && g.data_used(
                        self.disk(),
                        ids@[t],
                    ),
                forall|x: u64| g.data_used(d0, x) ==> #[trigger] g.data_used(self.disk(), x),
                forall|x: u64|
                    #[trigger] g.data_used(self.disk(), x) <==> (g.data_used(d0, x) || ids@.contains(
                        x,
                    )),
                g.lowest_free(d0, ids@),
            decreases count - k,
        {
            let ghost before = *self;
            let id = self.alloc_data();
            proof {
                g.lemma_lowest_more(d0, before.disk(), ids@, id);
                self.lemma_files_kept_twice(&before, old(self));
                assert(!g.data_used(d0, id)) by {
                    if g.data_used(d0, id) {
                        assert(g.data_used(before.disk(), id));
                    }
                }
                assert forall|t: int| 0 <= t < ids@.len() implies ids@[t] != id by {
                    assert(g.data_used(before.disk(), ids@[t]));
                }
                assert forall|x: u64| g.data_used(d0, x) implies #[trigger] g.data_used(
                    self.disk(),
                    x,
                ) by {
                    assert(g.data_used(before.disk(), x));
                    assert(x != id);
                    assert(g.data_used(self.disk(), x) == g.data_used(before.disk(), x));
                }
            }
            let ghost prev = ids@;
            ids.push(id);
            proof {
                assert(ids@[prev.len() as int] == id);
                assert forall|x: u64|
                    #[trigger] g.data_used(self.disk(), x) <==> (g.data_used(d0, x) || ids@.contains(
                        x,
                    )) by {
                    if x == id {
                    } else {
                        assert(g.data_used(self.disk(), x) == g.data_used(before.disk(), x));
                        assert(g.data_used(before.disk(), x) <==> (g.data_used(d0, x) || prev.contains(
                            x,
                        )));
                        if prev.contains(x) {
                            let t = choose|t: int| 0 <= t < prev.len() && prev[t] == x;
                            assert(ids@[t] == x);
                        }
                        if ids@.contains(x) {
                            let t = choose|t: int| 0 <= t < ids@.len() && ids@[t] == x;
                            assert(t < prev.len());
                            assert(prev[t] == x);
                        }
                    }
                }
                assert forall|t: int| 0 <= t < ids@.len() implies !g.data_used(
                    d0,
                    #[trigger] ids@[t],
                ) && g.data_used(self.disk(), ids@[t]) by {
                    if t < prev.len() {
                        assert(ids@[t] == prev[t]);
                        assert(g.data_used(before.disk(), prev[t]));
                        assert(prev[t] != id);
                        assert(g.data_used(self.disk(), prev[t]) == g.data_used(
                            before.disk(),
                            prev[t],
                        ));
                    }
                }
            }
            k += 1;
        }
        ids
    }

    /// Gives the blocks `ids`, which are in use and which no inode refers
    /// to, back to the free blocks.
    #[verifier::spinoff_prover]
    #[verifier::rlimit(40)]
    fn free_blocks(&mut self, ids: &Vec<u64>)
        requires
            old(self).wf(),
            ids@.no_duplicates(),
            forall|t: int|
                0 <= t < ids@.len() ==> old(self).geometry().data_used(
                    old(self).disk(),
                    #[trigger] ids@[t],
                ),
            forall|i: int|
                old(self).geometry().inode_used(old(self).disk(), i) ==> #[trigger] old(self).geometry().apart(old(self).disk(), i, ids@),
        ensures
            final(self).wf(),
            final(self).spec_files_kept(old(self)),
            final(self).spec_free_blocks() == old(self).spec_free_blocks() + ids@.len(),
            forall|x: u64|
                #[trigger] final(self).geometry().data_used(final(self).disk(), x) <==> (old(self).geometry().data_used(old(self).disk(), x) && !ids@.contains(x)),
    {
        let ghost g = self.geometry();
        let ghost d0 = self.cache_manager@;
        let n = ids.len();
        let mut k: usize = 0;
        while k < n
            invariant
                k <= n,
                n == ids@.len(),
                self.wf(),
                self.spec_files_kept(old(self)),
                g == self.geometry(),
                d0 == old(self).disk(),
                ids@.no_duplicates(),
                self.spec_free_blocks() == old(self).spec_free_blocks() + k,
                forall|t: int| k <= t < n ==> g.data_used(self.disk(), #[trigger] ids@[t]),
                forall|i: int| g.inode_used(d0, i) ==> #[trigger] g.apart(d0, i, ids@),
                forall|x: u64|
                    #[trigger] g.data_used(self.disk(), x) <==> (g.data_used(d0, x)
                        && !ids@.subrange(0, k as int).contains(x)),
            decreases n - k,
        {
            let ghost before = *self;
            let id = ids[k];
            proof {
                assert forall|i: int| g.inode_used(before.disk(), i) implies !(#[trigger] g.owned(
                    before.disk(),
                    i,
                )).contains(id) by {
                    assert(g.inode_used(d0, i) == g.inode_used(before.disk(), i));
                    assert(g.same_inode(d0, before.disk(), i));
                    assert(g.apart(d0, i, ids@));
                    if g.owned(d0, i).contains(id) {
                        let t = choose|t: int| 0 <= t < g.owned(d0, i).len() && g.owned(d0, i)[t] == id;
                        assert(g.owned(d0, i)[t] != ids@[k as int]);
                    }
                }
            }
            self.dealloc_data(id);
            proof {
                self.lemma_files_kept_twice(&before, old(self));
                let done = ids@.subrange(0, k as int);
                let more = ids@.subrange(0, k + 1);
                assert(more[k as int] == id);
                assert forall|x: u64|
                    #[trigger] g.data_used(self.disk(), x) <==> (g.data_used(d0, x)
                        && !more.contains(x)) by {
                    if x == id {
                    } else {
                        assert(g.data_used(self.disk(), x) == g.data_used(before.disk(), x));
                        assert(g.data_used(before.disk(), x) <==> (g.data_used(d0, x)
                            && !done.contains(x)));
                        if done.contains(x) {
                            let t = choose|t: int| 0 <= t < done.len() && done[t] == x;
                            assert(more[t] == x);
                        }
                        if more.contains(x) {
                            let t = choose|t: int| 0 <= t < more.len() && more[t] == x;
                            assert(t < k);
                            assert(done[t] == x);
                        }
                    }
                }
                assert forall|t: int| k + 1 <= t < n implies g.data_used(
                    self.disk(),
                    #[trigger] ids@[t],
                ) by {
                    assert(ids@[t] != ids@[k as int]);
                    assert(g.data_used(self.disk(), ids@[t]) == g.data_used(before.disk(), ids@[t]));
                }
            }
            k += 1;
        }
        proof {
            assert(ids@.subrange(0, n as int) =~= ids@);
        }
    }

    /// Nothing but inode `n` differs between `old` and this filesystem:
    /// the regions are the same, the same inodes are in use and held in
    /// memory, every other file is what it was, and inode `n` has kept
    /// its type and its name.
    pub open spec fn spec_inode_changed(&self, old: &Self, n: u64) -> bool {
        &&& self.geometry() == old.geometry()
        &&& self.disk().len() == old.disk().len()
        &&& self.geometry().same_inodes(old.disk(), self.disk())
        &&& forall|i: int|
            self.geometry().inode_used(old.disk(), i) && i != n ==> #[trigger] self.geometry().same_inode(
                old.disk(),
                self.disk(),
                i,
            )
        &&& self.spec_inode_cache().len() == old.spec_inode_cache().len()
        &&& forall|k: int|
            0 <= k < self.spec_inode_cache().len() ==> (#[trigger] self.spec_inode_cache()[k])@.inode_number
                == old.spec_inode_cache()[k]@.inode_number
        &&& self.geometry().meta(self.disk(), n as int).type_ == old.geometry().meta(
            old.disk(),
            n as int,
        ).type_
        &&& self.geometry().meta(self.disk(), n as int).name == old.geometry().meta(
            old.disk(),
            n as int,
        ).name
    }

    /// Where nothing but inode `n` has changed, the files are what they
    /// were but for file `n`, which has its type and name and the
    /// contents found on disk.
    pub proof fn lemma_inode_changed(&self, old: &Self, n: u64)
        requires
            self.spec_inode_changed(old, n),
            old.spec_exists(n),
        ensures
            self@ == old@.insert(
                n,
                FileView {
                    data: self.geometry().data(self.disk(), n as int),
                    ..old@[n]
                },
            ),
    {
        let g = self.geometry();
        let d = old.disk();
        let e = self.disk();
        assert(self@ =~= old@.insert(n, FileView { data: g.data(e, n as int), ..old@[n] })) by {
            assert forall|i: u64| g.inode_used(d, i as int) && i != n implies g.file(e, i as int)
                == g.file(d, i as int) by {
                assert(g.same_inode(d, e, i as int));
            }
            assert forall|i: u64| g.inode_used(e, i as int) == g.inode_used(d, i as int) by {}
        }
    }

    /// Every data block of inode `n` holds its 512 bytes of `contents`,
    /// the last one with zeros behind what is left of them.
    pub open spec fn spec_written(&self, n: u64, contents: Seq<u8>) -> bool {
        forall|t: int|
            0 <= t < spec_data_ids(self.disk(), self.geometry().meta(self.disk(), n as int)).len()
                ==> self.disk()[(#[trigger] spec_data_ids(
                self.disk(),
                self.geometry().meta(self.disk(), n as int),
            )[t]) as int] == super::inode::spec_chunk(contents, t)
    }

    /// Writes `contents` to the data blocks of inode `inode_number`,
    /// whose size is already that of `contents`.
    #[verifier::spinoff_prover]
    #[verifier::rlimit(40)]
    fn fill(&mut self, inode_number: u64, slot: usize, contents: &Vec<u8>)
        requires
            old(self).wf(),
            old(self).spec_exists(inode_number),
            slot < old(self).spec_inode_cache().len(),
            old(self).spec_inode_cache()[slot as int]@.inode_number == inode_number,
            old(self).geometry().meta(old(self).disk(), inode_number as int).size
                == contents@.len(),
        ensures
            final(self).wf(),
            final(self).spec_inode_changed(old(self), inode_number),
            final(self).geometry().data(final(self).disk(), inode_number as int) == contents@,
            final(self).spec_free_blocks() == old(self).spec_free_blocks(),
            final(self).spec_used_blocks(inode_number) == old(self).spec_used_blocks(inode_number),
            final(self).geometry().same_layout(old(self).disk(), final(self).disk(), inode_number as int),
            forall|x: u64|
                #[trigger] final(self).geometry().data_used(final(self).disk(), x) == old(self).geometry().data_used(old(self).disk(), x),
            final(self).spec_written(inode_number, contents@),
    {
        reveal(CAFS::wf);
        let ghost g = self.geometry();
        let ghost d = self.cache_manager@;
        let ghost n = inode_number as int;
        let ghost m = g.meta(d, n);
        proof {
            g.lemma_fs_ok(d);
            g.lemma_owned_in_data_area(d, n);
            super::tree::lemma_data_ids_nonzero(d, m);
            super::tree::lemma_counts_monotone(m.size, m.size);
            let ids = spec_data_ids(d, m);
            let idx = spec_index_ids(d, m.indirect, m.size);
            assert(self.inode_cache@[slot as int]@.blocks == ids);
            assert forall|t: int| 0 <= t < ids.len() implies g.owned(d, n)[idx.len() + t]
                == #[trigger] ids[t] by {}
            assert(ids.no_duplicates()) by {
                assert forall|a: int, b: int|
                    0 <= a < ids.len() && 0 <= b < ids.len() && a != b implies ids[a] != ids[b] by {
                    assert(g.owned(d, n)[idx.len() + a] == ids[a]);
                    assert(g.owned(d, n)[idx.len() + b] == ids[b]);
                }
            }
            assert forall|t: int| 0 <= t < ids.len() implies ids[t] < d.len() by {
                assert(g.owned(d, n)[idx.len() + t] == ids[t]);
            }
        }
        write_blocks(&mut self.cache_manager, self.inode_cache[slot].blocks(), contents);
        proof {
            let e = self.cache_manager@;
            self.cache_manager.lemma_view_wf();
            g.lemma_fill(d, e, n, contents@);
            assert(self.spec_written(inode_number, contents@)) by {
                let ids = spec_data_ids(d, m);
                assert(spec_data_ids(e, g.meta(e, n)) == ids);
                assert forall|t: int| 0 <= t < ids.len() implies e[(#[trigger] ids[t]) as int]
                    == super::inode::spec_chunk(contents@, t) by {}
            }
            assert forall|i: int| g.inode_used(d, i) implies #[trigger] g.same_layout(d, e, i) by {
                if i != n {
                    assert(g.same_inode(d, e, i));
                }
            }
            assert(spec_inodes_agree(g, e, self.inode_cache@)) by {
                assert forall|k: int| 0 <= k < self.inode_cache@.len() implies g.inode_used(
                    e,
                    (#[trigger] self.inode_cache@[k])@.inode_number as int,
                ) && self.inode_cache@[k]@ == spec_inode_view(
                    e,
                    self.inode_cache@[k]@.inode_number,
                    g.record_block(self.inode_cache@[k]@.inode_number as int) as u64,
                    g.meta(e, self.inode_cache@[k]@.inode_number as int),
                ) by {
                    let i = self.inode_cache@[k]@.inode_number as int;
                    assert(g.inode_used(d, i));
                    assert(g.inode_used(e, i) == g.inode_used(d, i));
                    assert(g.same_layout(d, e, i));
                }
            }
        }
    }

    /// The number of blocks of the data area that a file of `size` bytes
    /// uses: its data blocks and its index blocks.
    pub open spec fn spec_blocks_for(size: u64) -> int {
        spec_data_blocks(size) + spec_index_blocks(size).spec_index_block_count()
    }

    /// Writes the record `meta` of inode `inode_number` to its block and
    /// brings the in-memory inode in `slot` up to date with it.
    #[verifier::spinoff_prover]
    #[verifier::rlimit(40)]
    fn store_meta(&mut self, inode_number: u64, slot: usize, meta: &Meta) -> (r: Ghost<Seq<Seq<u8>>>)
        requires
            old(self).spec_cache().wf(),
            old(self).disk().len() <= u64::MAX,
            old(self).geometry().record_block(inode_number as int) < old(self).disk().len(),
            slot < old(self).spec_inode_cache().len(),
            meta.spec_wf(old(self).disk()),
            forall|t: int|
                0 <= t < spec_index_ids(old(self).disk(), meta@.indirect, meta@.size).len()
                    ==> #[trigger] spec_index_ids(old(self).disk(), meta@.indirect, meta@.size)[t]
                    != old(self).geometry().record_block(inode_number as int),
        ensures
            final(self).spec_cache().wf(),
            final(self).geometry() == old(self).geometry(),
            final(self).geometry().record_written(
                old(self).disk(),
                final(self).disk(),
                inode_number as int,
                meta@,
            ),
            final(self).spec_inode_cache().len() == old(self).spec_inode_cache().len(),
            forall|k: int|
                0 <= k < old(self).spec_inode_cache().len() && k != slot ==> final(self).spec_inode_cache()[k] == old(self).spec_inode_cache()[k],
            final(self).spec_inode_cache()[slot as int]@ == (super::inode::CaInodeView {
                size: meta@.size,
                blocks: spec_data_ids(final(self).disk(), meta@),
                ..old(self).spec_inode_cache()[slot as int]@
            }),
            r@ == old(self).disk(),
    {
        let ghost g = self.geometry();
        let ghost d2 = self.cache_manager@;
        let ghost rec = g.record_block(inode_number as int);
        let block_id = self.inode_area_start_block + inode_number;
        let bytes = meta.encode();
        self.cache_manager.write_block(block_id, &bytes);
        proof {
            let d3 = self.cache_manager@;
            self.cache_manager.lemma_view_wf();
            let one = seq![rec as u64];
            assert(spec_unchanged_outside(d2, d3, one)) by {
                assert forall|b: int| 0 <= b < d2.len() && !one.contains(b as u64) implies #[trigger] d3[b]
                    == d2[b] by {
                    assert(one[0] == rec as u64);
                }
            }
            assert forall|t: int|
                0 <= t < spec_index_ids(d2, meta@.indirect, meta@.size).len() implies !one.contains(
                #[trigger] spec_index_ids(d2, meta@.indirect, meta@.size)[t],
            ) by {}
            super::tree::lemma_unchanged_keeps_index(d2, d3, one, meta@.indirect, meta@.size);
            super::tree::lemma_tree_frame(d2, d3, meta@);
        }
        let (_, blocks) = meta.blocks(&mut self.cache_manager);
        self.inode_cache[slot].set_contents(meta.size(), blocks);
        Ghost(d2)
    }

    /// Grows inode `inode_number`, whose record is `meta`, to `new_size`
    /// bytes with blocks taken from the free blocks.
    #[verifier::spinoff_prover]
    #[verifier::rlimit(40)]
    fn grow(&mut self, inode_number: u64, slot: usize, meta: Meta, new_size: u64)
        requires
            old(self).wf(),
            old(self).spec_exists(inode_number),
            slot < old(self).spec_inode_cache().len(),
            old(self).spec_inode_cache()[slot as int]@.inode_number == inode_number,
            meta@ == old(self).geometry().meta(old(self).disk(), inode_number as int),
            meta@.size < new_size <= L4_MAX,
            Self::spec_blocks_for(new_size) - Self::spec_blocks_for(meta@.size) <= old(self).spec_free_blocks(),
        ensures
            final(self).wf(),
            final(self).spec_inode_changed(old(self), inode_number),
            final(self).geometry().meta(final(self).disk(), inode_number as int).size == new_size,
            final(self).spec_free_blocks() == old(self).spec_free_blocks() - (Self::spec_blocks_for(
                new_size,
            ) - Self::spec_blocks_for(meta@.size)),
            final(self).spec_used_blocks(inode_number) == old(self).spec_used_blocks(inode_number)
                + (Self::spec_blocks_for(new_size) - Self::spec_blocks_for(meta@.size)),
            final(self).geometry().resized(old(self).disk(), final(self).disk(), inode_number as int),
            final(self).geometry().took_lowest(
                old(self).disk(),
                final(self).disk(),
                inode_number as int,
            ),
    {
        reveal(CAFS::wf);
        let ghost g = self.geometry();
        let ghost d0 = self.cache_manager@;
        let ghost n = inode_number as int;
        let ghost q0 = self.inode_cache@;
        let mut meta = meta;
        proof {
            super::tree::lemma_counts_monotone(meta@.size, new_size);
        }
        let curr_info = Meta::index_blocks(meta.size());
        let new_info = Meta::index_blocks(new_size);
        let more_data = Meta::_data_blocks(new_size) - meta.data_blocks();
        let more_index = new_info.index_block_count() - curr_info.index_block_count();
        let data_blocks = self.alloc_blocks(more_data);
        let ghost mid = *self;
        let index_blocks = self.alloc_blocks(more_index);
        let ghost d1 = self.cache_manager@;
        let ghost ed = data_blocks@;
        let ghost ei = index_blocks@;
        proof {
            self.lemma_files_kept_twice(&mid, old(self));
            g.lemma_two_batches(d0, mid.disk(), d1, ed, ei);
            g.lemma_two_batches_used(d0, mid.disk(), d1, ed, ei);
            g.lemma_lowest_two(d0, mid.disk(), ed, ei);
            g.lemma_grow_input(d0, d1, n, new_size, ed, ei);
        }
        meta.extend(new_size, new_info, data_blocks, index_blocks, &mut self.cache_manager);
        let ghost m2 = meta@;
        let Ghost(d2) = self.store_meta(inode_number, slot, &meta);
        proof {
            let d3 = self.cache_manager@;
            g.lemma_grown(d0, d1, d2, d3, n, m2, ed, ei);
            assert(spec_inode_agrees(g, d3, self.inode_cache@[slot as int]));
            lemma_agree_updated(g, d0, d3, q0, self.inode_cache@, slot as int);
            g.lemma_grown_resized(d0, d1, d3, n, ed, ei);
            g.lemma_grown_lowest(d0, d3, n, ed, ei);
        }
    }

    /// A change to inode `n` followed by a change that kept every file
    /// is a change to inode `n`.
    pub proof fn lemma_changed_then_kept(&self, mid: &Self, old: &Self, n: u64)
        requires
            mid.spec_inode_changed(old, n),
            self.spec_files_kept(mid),
            old.spec_exists(n),
        ensures
            self.spec_inode_changed(old, n),
            self.geometry().meta(self.disk(), n as int) == mid.geometry().meta(
                mid.disk(),
                n as int,
            ),
            self.spec_used_blocks(n) == mid.spec_used_blocks(n),
            self.geometry().data(self.disk(), n as int) == mid.geometry().data(
                mid.disk(),
                n as int,
            ),
    {
        let g = self.geometry();
        assert(g.inode_used(mid.disk(), n as int) == g.inode_used(old.disk(), n as int));
        assert(g.same_inode(mid.disk(), self.disk(), n as int));
        assert forall|i: int| g.inode_used(old.disk(), i) && i != n implies #[trigger] g.same_inode(
            old.disk(),
            self.disk(),
            i,
        ) by {
            assert(g.inode_used(mid.disk(), i) == g.inode_used(old.disk(), i));
            assert(g.same_inode(old.disk(), mid.disk(), i));
            assert(g.same_inode(mid.disk(), self.disk(), i));
        }
        assert forall|i: int| #[trigger] g.inode_used(self.disk(), i) == g.inode_used(
            old.disk(),
            i,
        ) by {
            assert(g.inode_used(mid.disk(), i) == g.inode_used(old.disk(), i));
            assert(g.inode_used(self.disk(), i) == g.inode_used(mid.disk(), i));
        }
    }

    /// Cuts inode `inode_number`, whose record is `meta`, down to
    /// `new_size` bytes and returns the index blocks and the data blocks
    /// that it no longer uses, each list from its last block backwards.
    #[verifier::spinoff_prover]
    #[verifier::rlimit(40)]
    fn cut_layout(&mut self, inode_number: u64, slot: usize, meta: Meta, new_size: u64) -> (freed: (
        Vec<u64>,
        Vec<u64>,
    ))
        requires
            old(self).wf(),
            old(self).spec_exists(inode_number),
            slot < old(self).spec_inode_cache().len(),
            old(self).spec_inode_cache()[slot as int]@.inode_number == inode_number,
            meta@ == old(self).geometry().meta(old(self).disk(), inode_number as int),
            new_size < meta@.size,
        ensures
            final(self).wf(),
            final(self).spec_inode_changed(old(self), inode_number),
            final(self).geometry().meta(final(self).disk(), inode_number as int).size == new_size,
            final(self).spec_free_blocks() == old(self).spec_free_blocks(),
            final(self).spec_used_blocks(inode_number) == Self::spec_blocks_for(new_size),
            old(self).spec_used_blocks(inode_number) == Self::spec_blocks_for(meta@.size),
            freed.0@.len() + freed.1@.len() == Self::spec_blocks_for(meta@.size)
                - Self::spec_blocks_for(new_size),
            Self::spec_turned(
                old(self).geometry().cut_off(
                    old(self).disk(),
                    inode_number as int,
                    spec_index_blocks(new_size).spec_index_block_count(),
                    spec_data_blocks(new_size),
                ),
                freed.0@,
                freed.1@,
            ),
            final(self).geometry().freeable(
                final(self).disk(),
                old(self).geometry().cut_off(
                    old(self).disk(),
                    inode_number as int,
                    spec_index_blocks(new_size).spec_index_block_count(),
                    spec_data_blocks(new_size),
                ),
            ),
            final(self).geometry().cut_to(
                old(self).disk(),
                final(self).disk(),
                inode_number as int,
                spec_index_blocks(new_size).spec_index_block_count(),
                spec_data_blocks(new_size),
            ),
    {
        reveal(CAFS::wf);
        let ghost g = self.geometry();
        let ghost d0 = self.cache_manager@;
        let ghost n = inode_number as int;
        let ghost q0 = self.inode_cache@;
        let ghost m0 = meta@;
        let mut meta = meta;
        proof {
            g.lemma_record_apart(d0, n);
            super::tree::lemma_counts_monotone(new_size, m0.size);
            super::tree::lemma_sort_facts(spec_index_ids(d0, m0.indirect, m0.size));
        }
        let ids = meta.shrink(new_size, &mut self.cache_manager);
        let ghost m2 = meta@;
        let ghost ni = spec_index_blocks(new_size).spec_index_block_count();
        let ghost nd = spec_data_blocks(new_size);
        let ghost sorted = spec_sort(spec_index_ids(d0, m0.indirect, m0.size));
        let ghost dat = spec_data_ids(d0, m0);
        proof {
            let d2 = self.cache_manager@;
            assert forall|t: int|
                0 <= t < spec_index_ids(d2, m2.indirect, m2.size).len() implies #[trigger] spec_index_ids(
                d2,
                m2.indirect,
                m2.size,
            )[t] != g.record_block(n) by {
                assert(spec_index_ids(d2, m2.indirect, m2.size)[t] == sorted[t]);
            }
            let a = sorted.subrange(ni, sorted.len() as int);
            let b = dat.subrange(nd, dat.len() as int);
            assert(a + b == g.cut_off(d0, n, ni, nd));
            assert forall|t: int| 0 <= t < ids.0@.len() implies #[trigger] ids.0@[t] == a[a.len() - 1
                - t] by {
                assert(ids.0@[t] == sorted[sorted.len() - 1 - t]);
            }
            assert forall|t: int| 0 <= t < ids.1@.len() implies #[trigger] ids.1@[t] == b[b.len() - 1
                - t] by {
                assert(ids.1@[t] == dat[dat.len() - 1 - t]);
            }
        }
        let Ghost(d2) = self.store_meta(inode_number, slot, &meta);
        let ghost d3 = self.cache_manager@;
        proof {
            assert(Geometry::footprint(d2, m2) == g.cut_kept(d0, n, ni, nd));
            g.lemma_cut(d0, d2, d3, n, m2, ni, nd);
            g.lemma_cut_freed(d0, d3, n, ni, nd);
            assert(spec_inode_agrees(g, d3, self.inode_cache@[slot as int]));
            lemma_agree_updated(g, d0, d3, q0, self.inode_cache@, slot as int);
            assert(g.cut_to(d0, d3, n, ni, nd));
        }
        ids
    }

    /// The lists `ra` and `rb` are the two parts of `cut`, each turned
    /// back to front: `ra` the first part, as long as `ra`, and `rb` the
    /// rest.
    pub open spec fn spec_turned(cut: Seq<u64>, ra: Seq<u64>, rb: Seq<u64>) -> bool {
        &&& cut.len() == ra.len() + rb.len()
        &&& forall|t: int| 0 <= t < ra.len() ==> #[trigger] ra[t] == cut[ra.len() - 1 - t]
        &&& forall|t: int| 0 <= t < rb.len() ==> #[trigger] rb[t] == cut[cut.len() - 1 - t]
    }

    /// Cuts inode `inode_number`, whose record is `meta`, down to
    /// `new_size` bytes and gives the blocks that it no longer uses back
    /// to the free blocks.
    #[verifier::spinoff_prover]
    #[verifier::rlimit(40)]
    fn cut(&mut self, inode_number: u64, slot: usize, meta: Meta, new_size: u64)
        requires
            old(self).wf(),
            old(self).spec_exists(inode_number),
            slot < old(self).spec_inode_cache().len(),
            old(self).spec_inode_cache()[slot as int]@.inode_number == inode_number,
            meta@ == old(self).geometry().meta(old(self).disk(), inode_number as int),
            new_size < meta@.size,
        ensures
            final(self).wf(),
            final(self).spec_inode_changed(old(self), inode_number),
            final(self).geometry().meta(final(self).disk(), inode_number as int).size == new_size,
            final(self).spec_free_blocks() == old(self).spec_free_blocks() + (Self::spec_blocks_for(
                meta@.size,
            ) - Self::spec_blocks_for(new_size)),
            final(self).spec_used_blocks(inode_number) == Self::spec_blocks_for(new_size),
            old(self).spec_used_blocks(inode_number) == Self::spec_blocks_for(meta@.size),
            final(self).geometry().resized(old(self).disk(), final(self).disk(), inode_number as int),
            final(self).geometry().took_lowest(
                old(self).disk(),
                final(self).disk(),
                inode_number as int,
            ),
    {
        let ghost g = self.geometry();
        let ghost d0 = self.disk();
        let ghost cut = g.cut_off(
            self.disk(),
            inode_number as int,
            spec_index_blocks(new_size).spec_index_block_count(),
            spec_data_blocks(new_size),
        );
        let (freed_index, freed_data) = self.cut_layout(inode_number, slot, meta, new_size);
        let ghost mid = *self;
        let mut freed = freed_index;
        let mut freed_data = freed_data;
        let ghost ra = freed@;
        let ghost rb = freed_data@;
        freed.append(&mut freed_data);
        proof {
            let a = cut.subrange(0, ra.len() as int);
            let b = cut.subrange(ra.len() as int, cut.len() as int);
            assert(a + b =~= cut);
            assert forall|t: int| 0 <= t < ra.len() implies #[trigger] ra[t] == a[a.len() - 1 - t] by {
                assert(ra[t] == cut[ra.len() - 1 - t]);
            }
            assert forall|t: int| 0 <= t < rb.len() implies #[trigger] rb[t] == b[b.len() - 1 - t] by {
                assert(rb[t] == cut[cut.len() - 1 - t]);
            }
            super::tree::lemma_reversed_parts(a, b, ra, rb);
            g.lemma_same_blocks_free(mid.disk(), cut, freed@);
            assert(freed@ =~= ra + rb);
            assert forall|x: u64| freed@.contains(x) <==> cut.contains(x) by {
                assert((ra + rb).contains(x) <==> (a + b).contains(x));
            }
        }
        self.free_blocks(&freed);
        proof {
            self.lemma_changed_then_kept(&mid, old(self), inode_number);
            assert(g.fs_ok(d0) && g.inode_used(d0, inode_number as int)) by {
                reveal(CAFS::wf);
            }
            assert(g.same_inode(mid.disk(), self.disk(), inode_number as int));
            g.lemma_cut_resized(
                d0,
                mid.disk(),
                self.disk(),
                inode_number as int,
                spec_index_blocks(new_size).spec_index_block_count(),
                spec_data_blocks(new_size),
                freed@,
            );
        }
    }

    /// Two changes to inode `n`, one after the other, are a change to
    /// inode `n`.
    pub proof fn lemma_changed_twice(&self, mid: &Self, old: &Self, n: u64)
        requires
            mid.spec_inode_changed(old, n),
            self.spec_inode_changed(mid, n),
        ensures
            self.spec_inode_changed(old, n),
    {
        let g = self.geometry();
        assert forall|i: int| g.inode_used(old.disk(), i) && i != n implies #[trigger] g.same_inode(
            old.disk(),
            self.disk(),
            i,
        ) by {
            assert(g.inode_used(mid.disk(), i) == g.inode_used(old.disk(), i));
            assert(g.same_inode(old.disk(), mid.disk(), i));
            assert(g.same_inode(mid.disk(), self.disk(), i));
        }
        assert forall|i: int| #[trigger] g.inode_used(self.disk(), i) == g.inode_used(
            old.disk(),
            i,
        ) by {
            assert(g.inode_used(mid.disk(), i) == g.inode_used(old.disk(), i));
            assert(g.inode_used(self.disk(), i) == g.inode_used(mid.disk(), i));
        }
        assert forall|k: int| 0 <= k < self.spec_inode_cache().len() implies (#[trigger] self.spec_inode_cache()[k])@.inode_number
            == old.spec_inode_cache()[k]@.inode_number by {
            assert(mid.spec_inode_cache()[k]@.inode_number == old.spec_inode_cache()[k]@.inode_number);
        }
    }

    /// Every inode but inode `n` is in this filesystem what it was in
    /// `old`: the same inodes are in use, and each but `n` has its record,
    /// its blocks and its contents.
    pub open spec fn spec_others_kept(&self, old: &Self, n: u64) -> bool {
        &&& self.geometry() == old.geometry()
        &&& self.geometry().same_inodes(old.disk(), self.disk())
        &&& forall|i: int|
            self.geometry().inode_used(old.disk(), i) && i != n ==> #[trigger] self.geometry().same_inode(
                old.disk(),
                self.disk(),
                i,
            )
    }

    /// Brings inode `inode_number` to `new_size` bytes: a larger size
    /// takes blocks from the free blocks, a smaller one gives blocks back
    /// to them.
    #[verifier::spinoff_prover]
    #[verifier::rlimit(40)]
    fn resize(&mut self, inode_number: u64, slot: usize, new_size: u64)
        requires
            old(self).wf(),
            old(self).spec_exists(inode_number),
            slot < old(self).spec_inode_cache().len(),
            old(self).spec_inode_cache()[slot as int]@.inode_number == inode_number,
            new_size <= L4_MAX,
            Self::spec_blocks_for(new_size) - old(self).spec_used_blocks(inode_number) <= old(self).spec_free_blocks(),
        ensures
            final(self).wf(),
            final(self).spec_inode_changed(old(self), inode_number),
            final(self).geometry().meta(final(self).disk(), inode_number as int).size == new_size,
            final(self).spec_free_blocks() == old(self).spec_free_blocks() + old(self).spec_used_blocks(inode_number) - Self::spec_blocks_for(new_size),
            final(self).spec_used_blocks(inode_number) == Self::spec_blocks_for(new_size),
            old(self).spec_used_blocks(inode_number) == Self::spec_blocks_for(
                old(self).geometry().meta(old(self).disk(), inode_number as int).size,
            ),
            final(self).geometry().resized(old(self).disk(), final(self).disk(), inode_number as int),
            final(self).geometry().took_lowest(
                old(self).disk(),
                final(self).disk(),
                inode_number as int,
            ),
    {
        reveal(CAFS::wf);
        let ghost g = self.geometry();
        let ghost d0 = self.cache_manager@;
        proof {
            g.lemma_record_apart(d0, inode_number as int);
        }
        let (block_id, offset) = self.inode_pos_of(inode_number);
        let rec = self.cache_manager.read_block(block_id);
        let meta = match Meta::decode(&rec) {
            Some(m) => m,
            None => {
                assert(false);
                vstd::pervasive::unreached()
            },
        };
        if meta.size() < new_size {
            self.grow(inode_number, slot, meta, new_size);
        } else if meta.size() > new_size {
            self.cut(inode_number, slot, meta, new_size);
        } else {
            proof {
                assert forall|i: int| g.inode_used(d0, i) && i != inode_number implies #[trigger] g.same_inode(
                    d0,
                    d0,
                    i,
                ) by {}
                g.lemma_resized_same(d0, inode_number as int);
            }
        }
    }

    /// Makes `contents` the contents of inode `inode_number`.
    ///
    /// The inode is brought to the size of `contents`, taking blocks from
    /// the free blocks or giving blocks back to them; then the contents
    /// are written to its data blocks, with zeros behind them in the last
    /// block.
    ///
    /// The data blocks that the inode had and still has keep their ids and
    /// their order; so do its index blocks where the size stays, and where
    /// it changes the index blocks that stay are the lowest ones, in
    /// ascending order. A block of the data area is in use afterwards
    /// exactly if the inode now refers to it, or it was in use and was
    /// none of the inode's; a block that the inode newly refers to was
    /// free. An inode that grows takes the lowest free blocks, in
    /// ascending order its new data blocks and then its new index blocks.
    /// The free bytes change by 512 for each block that the new size
    /// needs less than the old one, and the total bytes stay.
    #[verifier::spinoff_prover]
    #[verifier::rlimit(40)]
    pub fn write(&mut self, inode_number: u64, contents: &Vec<u8>)
        requires
            old(self).wf(),
            old(self).spec_exists(inode_number),
            contents@.len() <= L4_MAX,
            Self::spec_blocks_for(contents@.len() as u64) - old(self).spec_used_blocks(inode_number)
                <= old(self).spec_free_blocks(),
        ensures
            final(self).wf(),
            final(self).geometry() == old(self).geometry(),
            final(self)@ == old(self)@.insert(
                inode_number,
                FileView { data: contents@, ..old(self)@[inode_number] },
            ),
            final(self).spec_free_blocks() == old(self).spec_free_blocks() + old(self).spec_used_blocks(inode_number) - Self::spec_blocks_for(contents@.len() as u64),
            final(self).spec_used_blocks(inode_number) == Self::spec_blocks_for(
                contents@.len() as u64,
            ),
            final(self).spec_others_kept(old(self), inode_number),
            final(self).spec_size(inode_number) == contents@.len(),
            final(self).geometry().resized(old(self).disk(), final(self).disk(), inode_number as int),
            final(self).geometry().took_lowest(
                old(self).disk(),
                final(self).disk(),
                inode_number as int,
            ),
            final(self).spec_written(inode_number, contents@),
            old(self).spec_used_blocks(inode_number) == Self::spec_blocks_for(
                old(self).spec_size(inode_number),
            ),
            final(self).spec_df().1 == old(self).spec_df().1,
            final(self).spec_df().0 == old(self).spec_df().0 + 512 * (Self::spec_blocks_for(
                old(self).spec_size(inode_number),
            ) - Self::spec_blocks_for(contents@.len() as u64)),
            final(self).spec_held() == spec_held_with(old(self).spec_held(), inode_number),
    {
        let new_size = contents.len() as u64;
        let slot = self.cainode(inode_number);
        let ghost start = *self;
        self.resize(inode_number, slot, new_size);
        let ghost mid = *self;
        self.fill(inode_number, slot, contents);
        proof {
            self.lemma_changed_twice(&mid, &start, inode_number);
            self.lemma_inode_changed(&start, inode_number);
            self.lemma_others_kept(&start, old(self), inode_number);
            self.geometry().lemma_resized_then(
                start.disk(),
                mid.disk(),
                self.disk(),
                inode_number as int,
            );
            self.geometry().lemma_took_lowest_then(
                start.disk(),
                mid.disk(),
                self.disk(),
                inode_number as int,
            );
            mid.lemma_changed_held(&start, inode_number);
            self.lemma_changed_held(&mid, inode_number);
        }
    }

    /// A change to inode `n` of a filesystem whose disk is that of `old`
    /// has kept every other inode of `old`.
    pub proof fn lemma_others_kept(&self, start: &Self, old: &Self, n: u64)
        requires
            self.spec_inode_changed(start, n),
            start.spec_same_disk(old),
        ensures
            self.spec_others_kept(old, n),
    {
        let g = self.geometry();
        assert(start.disk() == old.disk());
        assert forall|i: int| g.inode_used(old.disk(), i) && i != n implies #[trigger] g.same_inode(
            old.disk(),
            self.disk(),
            i,
        ) by {
            assert(g.same_inode(start.disk(), self.disk(), i));
        }
        assert forall|i: int| #[trigger] g.inode_used(self.disk(), i) == g.inode_used(
            old.disk(),
            i,
        ) by {
            assert(g.inode_used(self.disk(), i) == g.inode_used(start.disk(), i));
        }
    }

    /// The number of free inodes.
    pub open spec fn spec_free_inodes(&self) -> nat {
        self.geometry().free_inodes(self.disk())
    }

    /// Takes the free inode with the lowest number into use as an empty
    /// file or directory named `name` and returns its in-memory view.
    #[verifier::spinoff_prover]
    #[verifier::rlimit(40)]
    pub fn alloc_inode_meta(&mut self, type_: InodeType, name: String) -> (inode: CaInode)
        requires
            old(self).wf(),
            old(self).spec_free_inodes() > 0,
            encode_utf8(name@).len() <= super::NAME_LENGTH_LIMIT,
        ensures
            final(self).wf(),
            final(self).geometry() == old(self).geometry(),
            !old(self).spec_exists(inode@.inode_number),
            inode@.inode_number < old(self).geometry().inode_count(),
            forall|i: u64| i < inode@.inode_number ==> old(self).spec_exists(i),
            final(self)@ == old(self)@.insert(
                inode@.inode_number,
                FileView {
                    type_,
                    name: spec_name_field(encode_utf8(name@)),
                    data: Seq::empty(),
                },
            ),
            final(self).spec_used_blocks(inode@.inode_number) == 0,
            final(self).spec_free_blocks() == old(self).spec_free_blocks(),
            final(self).spec_free_inodes() == old(self).spec_free_inodes() - 1,
            spec_inode_agrees(final(self).geometry(), final(self).disk(), inode),
            forall|i: u64|
                old(self).spec_exists(i) ==> final(self).spec_used_blocks(i) == old(self).spec_used_blocks(i),
            forall|i: u64| old(self).spec_exists(i) ==> final(self).spec_exists(i),
            final(self).spec_exists(inode@.inode_number),
            final(self).disk().len() == old(self).disk().len(),
            forall|b: int|
                0 <= b < old(self).disk().len() && b != 1 + inode@.inode_number / 4096 && b != old(self).geometry().record_block(inode@.inode_number as int) ==> final(self).disk()[b]
                    == old(self).disk()[b],
            inode@.type_ == type_,
            inode@.size == 0,
            inode@.name == spec_name_field(encode_utf8(name@)),
            final(self).spec_size(inode@.inode_number) == 0,
            final(self).spec_held() == spec_held_with(
                old(self).spec_held(),
                inode@.inode_number,
            ),
            forall|i: int|
                old(self).geometry().inode_used(old(self).disk(), i) ==> #[trigger] old(self).geometry().same_inode(old(self).disk(), final(self).disk(), i),
            forall|x: u64|
                #[trigger] final(self).geometry().data_used(final(self).disk(), x) == old(self).geometry().data_used(old(self).disk(), x),
    {
        reveal(CAFS::wf);
        let ghost g = self.geometry();
        let ghost d0 = self.cache_manager@;
        let ghost q0 = self.inode_cache@;
        proof {
            g.lemma_fs_ok(d0);
        }
        let id = match self.inode_bitmap.allocate(&mut self.cache_manager) {
            Some(id) => id,
            None => {
                proof {
                    self.inode_bitmap.lemma_full(d0);
                    assert(false);
                }
                vstd::pervasive::unreached()
            },
        };
        let ghost d1 = self.cache_manager@;
        proof {
            self.inode_bitmap.lemma_flipped(d0, d1, id as int);
            super::bitmap::lemma_count_clear_flip(d0, d1, 1, g.inode_count() as nat, id as int);
        }
        let (block_id, offset) = self.inode_pos_of(id);
        let inode = CaInode::new(&mut self.cache_manager, id, type_, block_id, offset, name);
        proof {
            let d2 = self.cache_manager@;
            let field = spec_name_field(encode_utf8(name@));
            self.cache_manager.lemma_view_wf();
            g.lemma_inode_added(d0, d1, d2, id as int, type_, field);
            lemma_agree_more(g, d0, d2, q0);
            assert(self@ =~= old(self)@.insert(
                id,
                FileView { type_, name: field, data: Seq::empty() },
            )) by {
                assert forall|i: u64| g.inode_used(d0, i as int) implies g.file(d2, i as int)
                    == g.file(d0, i as int) by {
                    assert(g.same_inode(d0, d2, i as int));
                }
                assert forall|i: u64| i != id implies g.inode_used(d2, i as int) == g.inode_used(
                    d0,
                    i as int,
                ) by {}
            }
            assert forall|i: u64| i < id implies old(self).spec_exists(i) by {
                assert(self.inode_bitmap.spec_is_set(d0, i as int));
            }
            assert forall|i: u64| old(self).spec_exists(i) implies self.spec_used_blocks(i) == old(self).spec_used_blocks(i) by {
                assert(g.same_inode(d0, d2, i as int));
            }
            assert forall|x: u64| #[trigger] g.data_used(d2, x) == g.data_used(d0, x) by {
                if g.data_area_start <= x < g.data_area_start + g.data_count() {
                    let b = g.data_bitmap_start + (x - g.data_area_start) / 4096;
                    assert(d2[b] == d0[b]);
                }
            }
            super::bitmap::lemma_count_clear_same_bits(
                d1,
                d2,
                1,
                g.inode_count() as nat,
            );
        }
        let copy = inode.clone();
        self.add_inode_cache(copy);
        inode
    }

    /// The inode numbers of the children of directory `inode_number`, in
    /// the order in which they were added; none for a file.
    pub fn sub_inodes(&mut self, inode_number: u64) -> (inodes: Vec<u64>)
        requires
            old(self).wf(),
            old(self).spec_exists(inode_number),
        ensures
            final(self).wf(),
            final(self).spec_same_disk(old(self)),
            inodes@ == if old(self)@[inode_number].type_ == InodeType::File {
                Seq::<u64>::empty()
            } else {
                spec_dir_entries(old(self)@[inode_number].data)
            },
            final(self).spec_held() == spec_held_with(old(self).spec_held(), inode_number),
    {
        let slot = self.cainode(inode_number);
        proof {
            lemma_held_again(old(self).spec_held(), inode_number);
        }
        if self.inode_cache[slot].is_file() {
            return Vec::new();
        }
        let data = self.data(inode_number);
        dir_entries(&data)
    }

    /// The length of the contents of a directory after a child has been
    /// added to contents of length `len`.
    pub open spec fn spec_dir_grown(len: nat) -> nat {
        if len == 0 {
            10
        } else {
            len + 11
        }
    }

    /// Creates an empty file named `name` in the directory `parent` and
    /// returns its in-memory view. The file takes the free inode with the
    /// lowest number and no block, and its record is added to the
    /// contents of the directory, which are written as `write` writes
    /// them: the directory keeps the blocks that it has and takes the
    /// lowest free blocks for what it needs more.
    #[verifier::spinoff_prover]
    #[verifier::rlimit(40)]
    pub fn create(&mut self, parent: u64, name: String) -> (inode: CaInode)
        requires
            old(self).wf(),
            old(self).spec_exists(parent),
            old(self).spec_free_inodes() > 0,
            encode_utf8(name@).len() <= super::NAME_LENGTH_LIMIT,
            Self::spec_dir_grown(old(self)@[parent].data.len()) <= L4_MAX,
            Self::spec_blocks_for(Self::spec_dir_grown(old(self)@[parent].data.len()) as u64) - old(self).spec_used_blocks(parent) <= old(self).spec_free_blocks(),
        ensures
            final(self).wf(),
            final(self).geometry() == old(self).geometry(),
            !old(self).spec_exists(inode@.inode_number),
            forall|i: u64| i < inode@.inode_number ==> old(self).spec_exists(i),
            final(self)@ == old(self)@.insert(
                inode@.inode_number,
                FileView {
                    type_: InodeType::File,
                    name: spec_name_field(encode_utf8(name@)),
                    data: Seq::empty(),
                },
            ).insert(
                parent,
                FileView {
                    data: spec_dir_append(old(self)@[parent].data, inode@.inode_number),
                    ..old(self)@[parent]
                },
            ),
            inode@.type_ == InodeType::File,
            inode@.size == 0,
            inode@.name == spec_name_field(encode_utf8(name@)),
            final(self).spec_free_inodes() == old(self).spec_free_inodes() - 1,
            final(self).spec_free_blocks() == old(self).spec_free_blocks() - (Self::spec_blocks_for(
                Self::spec_dir_grown(old(self)@[parent].data.len()) as u64,
            ) - old(self).spec_used_blocks(parent)),
            final(self).spec_used_blocks(inode@.inode_number) == 0,
            final(self).spec_used_blocks(parent) == Self::spec_blocks_for(
                Self::spec_dir_grown(old(self)@[parent].data.len()) as u64,
            ),
            final(self).spec_exists(inode@.inode_number),
            forall|i: u64| old(self).spec_exists(i) ==> final(self).spec_exists(i),
            forall|i: u64|
                old(self).spec_exists(i) && i != parent ==> final(self).spec_used_blocks(i) == old(self).spec_used_blocks(i),
            final(self).spec_size(inode@.inode_number) == 0,
            final(self).spec_size(parent) == Self::spec_dir_grown(old(self)@[parent].data.len()),
            final(self).spec_held() == spec_held_with(
                spec_held_with(
                    spec_held_with(old(self).spec_held(), inode@.inode_number),
                    parent,
                ),
                inode@.inode_number,
            ),
            final(self).geometry().resized(old(self).disk(), final(self).disk(), parent as int),
            final(self).geometry().took_lowest(old(self).disk(), final(self).disk(), parent as int),
            final(self).spec_written(
                parent,
                spec_dir_append(old(self)@[parent].data, inode@.inode_number),
            ),
    {
        let ghost g = self.geometry();
        let meta = self.alloc_inode_meta(InodeType::File, name);
        let ghost made = *self;
        let id = meta.inode_number();
        assert(id != parent);
        assert(self.spec_exists(parent));
        let contents = self.data(parent);
        let ghost read = *self;
        proof {
            assert(read.disk() == made.disk());
            assert(made@[parent] == old(self)@[parent]);
            assert(contents@ == old(self)@[parent].data);
        }
        let contents = dir_append(contents, id);
        proof {
            lemma_inode_number_len(id);
            assert(contents@.len() == Self::spec_dir_grown(old(self)@[parent].data.len()));
            assert(read.spec_used_blocks(parent) == old(self).spec_used_blocks(parent));
            assert(read.spec_free_blocks() == old(self).spec_free_blocks());
        }
        self.write(parent, &contents);
        proof {
            lemma_held_again(made.spec_held(), parent);
            assert(g.inode_used(read.disk(), id as int));
            assert(g.same_inode(read.disk(), self.disk(), id as int));
            assert(g.inode_used(self.disk(), id as int) == g.inode_used(read.disk(), id as int));
            g.lemma_same_inodes_free(read.disk(), self.disk());
            assert(spec_inode_agrees(g, self.disk(), meta));
            assert(self.spec_used_blocks(id) == 0);
            assert(g.same_inode(old(self).disk(), read.disk(), parent as int));
            g.lemma_kept_then_resized(old(self).disk(), read.disk(), self.disk(), parent as int);
            assert forall|i: u64| old(self).spec_exists(i) implies self.spec_exists(i) by {
                assert(made.spec_exists(i));
                assert(g.inode_used(self.disk(), i as int) == g.inode_used(read.disk(), i as int));
            }
            assert forall|i: u64| old(self).spec_exists(i) && i != parent implies self.spec_used_blocks(
                i,
            ) == old(self).spec_used_blocks(i) by {
                assert(made.spec_used_blocks(i) == old(self).spec_used_blocks(i));
                assert(g.inode_used(read.disk(), i as int));
                assert(g.same_inode(read.disk(), self.disk(), i as int));
            }
        }
        let ghost written = *self;
        let copy = meta.clone();
        self.add_inode_cache(copy);
        proof {
            assert(self.disk() == written.disk());
            assert(self@ == written@);
            assert(read@ == made@);
        }
        meta
    }

    /// Sets every one of the first `total_blocks` blocks to zero.
    fn clear_blocks(cache_manager: &mut CacheManager<D>, total_blocks: u64)
        requires
            old(cache_manager).wf(),
            total_blocks <= old(cache_manager)@.len(),
        ensures
            final(cache_manager).wf(),
            final(cache_manager)@.len() == old(cache_manager)@.len(),
            forall|b: int| 0 <= b < total_blocks ==> #[trigger] final(cache_manager)@[b] == spec_zeros(512),
            forall|b: int|
                total_blocks <= b < old(cache_manager)@.len() ==> #[trigger] final(cache_manager)@[b]
                    == old(cache_manager)@[b],
    {
        let ghost d0 = cache_manager@;
        let zero = [0u8; 512];
        assert(zero@ =~= spec_zeros(512));
        let mut i: u64 = 0;
        while i < total_blocks
            invariant
                i <= total_blocks <= d0.len(),
                cache_manager.wf(),
                cache_manager@.len() == d0.len(),
                zero@ == spec_zeros(512),
                forall|b: int| 0 <= b < i ==> #[trigger] cache_manager@[b] == spec_zeros(512),
                forall|b: int| i <= b < d0.len() ==> #[trigger] cache_manager@[b] == d0[b],
            decreases total_blocks - i,
        {
            cache_manager.write_block(i, &zero);
            i += 1;
        }
    }

    /// Whether block 0 of `block_device` is a superblock with the magic
    /// number of this filesystem.
    pub fn is_formatted(block_device: &D) -> (r: bool)
        requires
            block_device.contents().len() >= 1,
        ensures
            r == SuperBlock::spec_decode(block_device.contents()[0]).spec_is_valid(),
    {
        let mut block = [0u8; 512];
        block_device.read_block(0, &mut block);
        SuperBlock::decode(&block).is_valid()
    }

    /// Whether inode 0, the root directory, is in use on `block_device`:
    /// the superblock in block 0 gives the inode bitmap a block, and bit 0
    /// of block 1 is set.
    pub fn has_root(block_device: &D) -> (r: bool)
        requires
            block_device.contents().len() >= 2,
        ensures
            r == spec_geometry_of(SuperBlock::spec_decode(block_device.contents()[0])).inode_used(
                block_device.contents(),
                0,
            ),
    {
        let mut block = [0u8; 512];
        block_device.read_block(0, &mut block);
        let super_block = SuperBlock::decode(&block);
        if super_block.inode_bitmap_blocks == 0 {
            return false;
        }
        block_device.read_block(1, &mut block);
        let word = get_u64(&block, 0);
        assert((word >> 0u64) & 1 == word & 1) by (bit_vector);
        word & 1 == 1
    }

    /// Sets the first `total_blocks` blocks of `block_device` to zero,
    /// writes the superblock, and mounts the filesystem, which has no
    /// inode yet.
    #[verifier::spinoff_prover]
    #[verifier::rlimit(40)]
    fn format(block_device: D, total_blocks: u64, inode_bitmap_blocks: u64) -> (fs: Self)
        requires
            blocks_wf(block_device.contents()),
            total_blocks <= block_device.contents().len() <= u64::MAX,
            spec_init_fits(total_blocks, inode_bitmap_blocks),
        ensures
            fs.wf(),
            fs.geometry() == spec_init_geometry(total_blocks, inode_bitmap_blocks),
            forall|i: u64| !fs.spec_exists(i),
            fs.spec_free_blocks() == fs.geometry().data_count(),
            forall|x: u64| !#[trigger] fs.geometry().data_used(fs.disk(), x),
            fs.spec_free_inodes() == fs.geometry().inode_count(),
            fs.geometry().inode_count() >= 4096,
            SuperBlock::spec_decode(fs.disk()[0]) == spec_init_superblock(
                total_blocks,
                inode_bitmap_blocks,
            ),
            forall|i: int| 4 <= i < 8 || 48 <= i < 512 ==> #[trigger] fs.disk()[0][i] == 0u8,
            fs.spec_inode_cache().len() == 0,
            fs.disk().len() == block_device.contents().len(),
            forall|b: int| 1 <= b < total_blocks ==> #[trigger] fs.disk()[b] == spec_zeros(512),
            forall|b: int|
                total_blocks <= b < fs.disk().len() ==> #[trigger] fs.disk()[b]
                    == block_device.contents()[b],
    {
        let mut cache_manager = CacheManager::new(block_device);
        let inode_bitmap = Bitmap::new(1, inode_bitmap_blocks);
        let inode_num = inode_bitmap.total_count();
        let inode_area_blocks = (inode_num * 512 + BLOCK_SIZE - 1) / BLOCK_SIZE;
        let inode_total_blocks = inode_bitmap_blocks + inode_area_blocks;
        let data_total_blocks = total_blocks - 1 - inode_total_blocks;
        let data_bitmap_blocks = data_total_blocks / (BLOCK_BITS + 1);
        let data_area_blocks = data_total_blocks - data_bitmap_blocks;
        let data_bitmap = Bitmap::new(1 + inode_total_blocks, data_bitmap_blocks);
        assert(inode_area_blocks == inode_bitmap_blocks * 4096);
        assert(BLOCK_BITS + 1 == 4097);
        assert(data_bitmap_blocks == data_total_blocks / 4097);
        assert(data_bitmap_blocks * 4097 <= data_total_blocks) by (nonlinear_arith)
            requires
                data_bitmap_blocks == data_total_blocks / 4097,
        ;
        assert(data_bitmap_blocks * 4096 <= data_area_blocks);
        Self::clear_blocks(&mut cache_manager, total_blocks);
        let ghost cleared = cache_manager@;
        let mut super_block = SuperBlock {
            magic: 0,
            total_blocks: 0,
            inode_bitmap_blocks: 0,
            inode_area_blocks: 0,
            data_bitmap_blocks: 0,
            data_area_blocks: 0,
        };
        super_block.initialize(
            total_blocks,
            inode_bitmap_blocks,
            inode_area_blocks,
            data_bitmap_blocks,
            data_area_blocks,
        );
        let bytes = super_block.encode();
        cache_manager.write_block(0, &bytes);
        let ghost d = cache_manager@;
        proof {
            cache_manager.lemma_view_wf();
            assert forall|b: int| 1 <= b < total_blocks implies #[trigger] d[b] == spec_zeros(512) by {
                assert(cleared[b] == spec_zeros(512));
            }
        }
        let fs = Self {
            cache_manager,
            inode_bitmap,
            data_bitmap,
            inode_area_start_block: 1 + inode_bitmap_blocks,
            data_area_start_block: 1 + inode_total_blocks + data_bitmap_blocks,
            inode_cache: Vec::new(),
        };
        proof {
            let g = fs.geometry();
            assert(g == spec_init_geometry(total_blocks, inode_bitmap_blocks));
            assert(g.wf(d.len()));
            assert(SuperBlock::spec_decode(d[0]) == super_block);
            assert(d[0] == bytes@);
            assert(g.described(d));
            g.lemma_fresh(d);
            Geometry::lemma_zero_bitmap(
                d,
                g.data_bitmap_start as int,
                g.data_bitmap_blocks as int,
            );
            assert(spec_inodes_agree(g, d, fs.inode_cache@));
            reveal(CAFS::wf);
        }
        fs
    }

    /// Formats `block_device` as a filesystem of `total_blocks` blocks
    /// with an inode bitmap of `inode_bitmap_blocks` blocks, and mounts it.
    ///
    /// Every block is set to zero, the superblock is written, the root
    /// directory `/` is created as inode 0, and everything is written to
    /// the device.
    #[verifier::spinoff_prover]
    #[verifier::rlimit(40)]
    pub fn init(block_device: D, total_blocks: u64, inode_bitmap_blocks: u64) -> (fs: Self)
        requires
            blocks_wf(block_device.contents()),
            total_blocks <= block_device.contents().len() <= u64::MAX,
            spec_init_fits(total_blocks, inode_bitmap_blocks),
        ensures
            fs.wf(),
            fs.geometry() == spec_init_geometry(total_blocks, inode_bitmap_blocks),
            fs@ == Map::<u64, FileView>::empty().insert(
                0u64,
                FileView {
                    type_: InodeType::Dir,
                    name: spec_name_field(encode_utf8("/"@)),
                    data: Seq::empty(),
                },
            ),
            fs.spec_free_blocks() == fs.geometry().data_count(),
            forall|x: u64| !#[trigger] fs.geometry().data_used(fs.disk(), x),
            fs.spec_free_inodes() == fs.geometry().inode_count() - 1,
            SuperBlock::spec_decode(fs.disk()[0]) == spec_init_superblock(
                total_blocks,
                inode_bitmap_blocks,
            ),
            forall|i: int| 4 <= i < 8 || 48 <= i < 512 ==> #[trigger] fs.disk()[0][i] == 0u8,
            fs.spec_held() == seq![0u64],
            fs.spec_cache().is_clean(),
            fs.spec_exists(0),
            fs.spec_used_blocks(0) == 0,
            fs.spec_size(0) == 0,
            fs.disk().len() == block_device.contents().len(),
            forall|b: int|
                2 <= b < total_blocks && b != 1 + inode_bitmap_blocks ==> #[trigger] fs.disk()[b]
                    == spec_zeros(512),
            forall|b: int|
                total_blocks <= b < fs.disk().len() ==> #[trigger] fs.disk()[b]
                    == block_device.contents()[b],
    {
        let mut fs = Self::format(block_device, total_blocks, inode_bitmap_blocks);
        let ghost empty = fs;
        proof {
            assert forall|i: u64| !empty@.dom().contains(i) by {
                assert(!empty.spec_exists(i));
            }
            assert(empty@ =~= Map::<u64, FileView>::empty());
            reveal_strlit("/");
            vstd::utf8::is_ascii_chars_encode_utf8("/"@);
        }
        let root = fs.alloc_inode_meta(InodeType::Dir, "/".to_owned());
        proof {
            assert(root@.inode_number == 0) by {
                if root@.inode_number != 0 {
                    assert(empty.spec_exists(0));
                }
            }
            assert(fs.disk()[0] == empty.disk()[0]);
            assert(empty.spec_held() =~= Seq::<u64>::empty());
            assert(fs.spec_held() =~= seq![0u64]);
            assert forall|x: u64| !#[trigger] fs.geometry().data_used(fs.disk(), x) by {
                assert(!empty.geometry().data_used(empty.disk(), x));
            }
        }
        fs.flush();
        fs
    }

    /// Mounts the filesystem that `block_device` holds.
    pub fn open(block_device: D) -> (fs: Self)
        requires
            blocks_wf(block_device.contents()),
            spec_formatted(block_device.contents()),
        ensures
            fs.wf(),
            fs.disk() == block_device.contents(),
            fs.geometry() == spec_geometry_of(SuperBlock::spec_decode(block_device.contents()[0])),
            fs.spec_inode_cache().len() == 0,
            fs.spec_cache().is_clean(),
    {
        let mut cache_manager = CacheManager::new(block_device);
        proof {
            spec_geometry_of(SuperBlock::spec_decode(block_device.contents()[0])).lemma_fs_ok(
                block_device.contents(),
            );
        }
        let block = cache_manager.read_block(0);
        let super_block = SuperBlock::decode(&block);
        let inode_total_blocks = super_block.inode_bitmap_blocks + super_block.inode_area_blocks;
        let inode_bitmap = Bitmap::new(1, super_block.inode_bitmap_blocks);
        let data_bitmap = Bitmap::new(1 + inode_total_blocks, super_block.data_bitmap_blocks);
        let fs = Self {
            cache_manager,
            inode_bitmap,
            data_bitmap,
            inode_area_start_block: 1 + super_block.inode_bitmap_blocks,
            data_area_start_block: 1 + inode_total_blocks + super_block.data_bitmap_blocks,
            inode_cache: Vec::new(),
        };
        proof {
            reveal(CAFS::wf);
            assert(spec_inodes_agree(fs.geometry(), fs.cache_manager@, fs.inode_cache@));
        }
        fs
    }

    /// The number of free inodes.
    pub fn free_inodes(&mut self) -> (n: u64)
        requires
            old(self).wf(),
        ensures
            final(self).wf(),
            final(self).spec_same_disk(old(self)),
            final(self).spec_inode_cache() == old(self).spec_inode_cache(),
            n == old(self).spec_free_inodes(),
    {
        reveal(CAFS::wf);
        proof {
            self.geometry().lemma_fs_ok(self.cache_manager@);
        }
        self.inode_bitmap.free_count(&mut self.cache_manager)
    }

    /// The number of free blocks of the data area.
    pub fn free_blocks_count(&mut self) -> (n: u64)
        requires
            old(self).wf(),
        ensures
            final(self).wf(),
            final(self).spec_same_disk(old(self)),
            final(self).spec_inode_cache() == old(self).spec_inode_cache(),
            n == old(self).spec_free_blocks(),
    {
        reveal(CAFS::wf);
        proof {
            self.geometry().lemma_fs_ok(self.cache_manager@);
        }
        self.data_bitmap.free_count(&mut self.cache_manager)
    }

    /// The number of blocks that the data bitmap accounts for.
    pub fn data_blocks_count(&self) -> (n: u64)
        requires
            self.wf(),
        ensures
            n == self.geometry().data_count(),
    {
        reveal(CAFS::wf);
        proof {
            self.geometry().lemma_fs_ok(self.cache_manager@);
        }
        self.data_bitmap.total_count()
    }

    /// The number of blocks of the data area that a file of `size` bytes
    /// uses.
    pub fn blocks_for(size: u64) -> (n: u64)
        requires
            size <= L4_MAX,
        ensures
            n == Self::spec_blocks_for(size),
    {
        proof {
            super::tree::lemma_counts_monotone(size, size);
        }
        Meta::_data_blocks(size) + Meta::index_blocks(size).index_block_count()
    }

    /// Whether contents of `len` bytes can be written to inode
    /// `inode_number`: the inode is in use, the index can address the
    /// bytes, and there are blocks enough for what the inode has to grow.
    pub fn can_write(&mut self, inode_number: u64, len: usize) -> (r: bool)
        requires
            old(self).wf(),
        ensures
            final(self).wf(),
            final(self).spec_same_disk(old(self)),
            r == (old(self).spec_exists(inode_number) && len <= L4_MAX && Self::spec_blocks_for(
                len as u64,
            ) - old(self).spec_used_blocks(inode_number) <= old(self).spec_free_blocks()),
            final(self).spec_held() == if old(self).spec_exists(inode_number) && len <= L4_MAX {
                spec_held_with(old(self).spec_held(), inode_number)
            } else {
                old(self).spec_held()
            },
    {
        if !self.contains(inode_number) {
            return false;
        }
        if len as u64 > L4_MAX {
            return false;
        }
        let inode = self.inode(inode_number);
        proof {
            self.lemma_wf();
            self.geometry().lemma_record_apart(self.disk(), inode_number as int);
        }
        let used = Self::blocks_for(inode.size());
        let needed = Self::blocks_for(len as u64);
        let free = self.free_blocks_count();
        needed <= used || needed - used <= free
    }

    /// Whether a file named `name` can be created in directory `parent`:
    /// the directory is in use, an inode is free, the name fits the name
    /// field, and the directory can take one more record.
    pub fn can_create(&mut self, parent: u64, name: &String) -> (r: bool)
        requires
            old(self).wf(),
        ensures
            final(self).wf(),
            final(self).spec_same_disk(old(self)),
            r == (old(self).spec_exists(parent) && old(self).spec_free_inodes() > 0 && encode_utf8(
                name@,
            ).len() <= super::NAME_LENGTH_LIMIT && Self::spec_dir_grown(
                old(self)@[parent].data.len(),
            ) <= L4_MAX && Self::spec_blocks_for(
                Self::spec_dir_grown(old(self)@[parent].data.len()) as u64,
            ) - old(self).spec_used_blocks(parent) <= old(self).spec_free_blocks()),
            final(self).spec_held() == if old(self).spec_exists(parent) && old(self).spec_free_inodes() > 0 && encode_utf8(name@).len() <= super::NAME_LENGTH_LIMIT {
                spec_held_with(old(self).spec_held(), parent)
            } else {
                old(self).spec_held()
            },
    {
        if !self.contains(parent) {
            return false;
        }
        if self.free_inodes() == 0 {
            return false;
        }
        if name.as_str().as_bytes().len() > super::NAME_LENGTH_LIMIT {
            return false;
        }
        let inode = self.inode(parent);
        let size = inode.size();
        proof {
            let g = self.geometry();
            self.lemma_wf();
            g.lemma_record_apart(self.disk(), parent as int);
            assert(self@[parent].data.len() == size);
        }
        let grown: u64 = if size == 0 {
            10
        } else {
            size + 11
        };
        if grown > L4_MAX {
            return false;
        }
        let used = Self::blocks_for(size);
        let needed = Self::blocks_for(grown);
        let free = self.free_blocks_count();
        needed <= used || needed - used <= free
    }

    /// Whether a filesystem of `total_blocks` blocks with an inode bitmap
    /// of `inode_bitmap_blocks` blocks can be made.
    pub fn fits(total_blocks: u64, inode_bitmap_blocks: u64) -> (r: bool)
        ensures
            r == spec_init_fits(total_blocks, inode_bitmap_blocks),
    {
        if inode_bitmap_blocks < 1 || inode_bitmap_blocks > 8796093022207 {
            return false;
        }
        let record_blocks = inode_bitmap_blocks * 4096;
        if 1 + inode_bitmap_blocks > u64::MAX - record_blocks {
            return false;
        }
        1 + inode_bitmap_blocks + record_blocks <= total_blocks
    }
}

/// A directory record has ten bytes.
proof fn lemma_inode_number_len(id: u64)
    ensures
        super::spec_inode_number_binary(id).len() == 10,
{
}

} // verus!
