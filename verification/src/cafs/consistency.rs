//! What it means for the blocks of a device to hold a filesystem.
//!
//! The regions follow one another: the superblock, the inode bitmap, the
//! inode area with one record block for every bit of the inode bitmap, the
//! data bitmap, and the data area with one block for every bit of the data
//! bitmap. An inode is in use when its bit is set. Every block that an
//! inode in use refers to, as an index block or as a data block, lies in
//! the data area, has its bit set, and is referred to once only.
use super::bitmap::{
    lemma_count_clear_same_bits, lemma_empty_count, spec_bit_set, spec_count_clear,
};
use super::layout::{SuperBlock, FS_MAGIC};
use crate::bytes::{lemma_zero_word, spec_zeros};
use super::inode::{spec_chunk, spec_file_bytes};
use super::layout::{
    spec_data_blocks, spec_decode_meta, spec_empty_meta, spec_index_blocks, MetaView, L4_MAX,
};
use super::tree::{
    lemma_cut_rearranges, lemma_data_ids_nonzero, lemma_grown_rearranges, lemma_same_ids,
    lemma_sorted_index, lemma_tree_frame, spec_layout_input, lemma_unchanged_keeps_index, spec_data_ids,
    spec_index_ids, spec_meta_wf, spec_sort, spec_unchanged_outside,
};
use crate::blocks_wf;
use crate::fs::InodeType;
use vstd::prelude::*;

verus! {

/// Where the regions of the filesystem lie.
pub struct Geometry {
    /// First block of the inode bitmap: block 1, after the superblock.
    pub inode_bitmap_start: u64,
    /// Number of blocks of the inode bitmap.
    pub inode_bitmap_blocks: u64,
    /// First block of the inode area.
    pub inode_area_start: u64,
    /// First block of the data bitmap.
    pub data_bitmap_start: u64,
    /// Number of blocks of the data bitmap.
    pub data_bitmap_blocks: u64,
    /// First block of the data area.
    pub data_area_start: u64,
}

/// A file or directory as its users see it.
pub struct FileView {
    /// File or directory.
    pub type_: InodeType,
    /// The name field: the name, then zeros.
    pub name: Seq<u8>,
    /// The contents.
    pub data: Seq<u8>,
}

impl Geometry {
    /// The number of inodes.
    pub open spec fn inode_count(self) -> int {
        self.inode_bitmap_blocks * 4096
    }

    /// The number of blocks that the data bitmap accounts for.
    pub open spec fn data_count(self) -> int {
        self.data_bitmap_blocks * 4096
    }

    /// The regions follow one another and fit a device of `len` blocks.
    pub open spec fn wf(self, len: nat) -> bool {
        &&& self.inode_bitmap_start == 1
        &&& self.inode_area_start == 1 + self.inode_bitmap_blocks
        &&& self.inode_area_start + self.inode_count() <= self.data_bitmap_start
        &&& self.data_area_start == self.data_bitmap_start + self.data_bitmap_blocks
        &&& self.data_area_start + self.data_count() <= len
        &&& len <= u64::MAX
    }

    /// The block that holds the record of inode `i`.
    pub open spec fn record_block(self, i: int) -> int {
        self.inode_area_start + i
    }

    /// Whether inode `i` is in use.
    pub open spec fn inode_used(self, d: Seq<Seq<u8>>, i: int) -> bool {
        0 <= i < self.inode_count() && spec_bit_set(d, 1, i)
    }

    /// Whether `x` is a block of the data area whose bit is set.
    pub open spec fn data_used(self, d: Seq<Seq<u8>>, x: u64) -> bool {
        &&& self.data_area_start <= x < self.data_area_start + self.data_count()
        &&& spec_bit_set(d, self.data_bitmap_start as int, x - self.data_area_start)
    }

    /// The record of inode `i`.
    pub open spec fn meta(self, d: Seq<Seq<u8>>, i: int) -> MetaView {
        spec_decode_meta(d[self.record_block(i)])->0
    }

    /// The blocks that inode `i` refers to: its index blocks, then its
    /// data blocks.
    pub open spec fn owned(self, d: Seq<Seq<u8>>, i: int) -> Seq<u64> {
        spec_index_ids(d, self.meta(d, i).indirect, self.meta(d, i).size) + spec_data_ids(
            d,
            self.meta(d, i),
        )
    }

    /// The contents of inode `i`.
    pub open spec fn data(self, d: Seq<Seq<u8>>, i: int) -> Seq<u8> {
        spec_file_bytes(d, spec_data_ids(d, self.meta(d, i)), self.meta(d, i).size)
    }

    /// Inode `i` as its users see it.
    pub open spec fn file(self, d: Seq<Seq<u8>>, i: int) -> FileView {
        FileView { type_: self.meta(d, i).type_, name: self.meta(d, i).name, data: self.data(d, i) }
    }

    /// Inode `i` has a valid record and a well-formed index, and every
    /// block that it refers to is a block in use that it refers to once.
    pub open spec fn inode_ok(self, d: Seq<Seq<u8>>, i: int) -> bool {
        &&& spec_decode_meta(d[self.record_block(i)]) is Some
        &&& spec_meta_wf(d, self.meta(d, i))
        &&& self.owned(d, i).no_duplicates()
        &&& forall|t: int|
            0 <= t < self.owned(d, i).len() ==> self.data_used(d, #[trigger] self.owned(d, i)[t])
    }

    /// The inodes `i` and `j` refer to no block in common.
    pub open spec fn disjoint(self, d: Seq<Seq<u8>>, i: int, j: int) -> bool {
        forall|t: int, u: int|
            0 <= t < self.owned(d, i).len() && 0 <= u < self.owned(d, j).len() ==> #[trigger] self.owned(
                d,
                i,
            )[t] != #[trigger] self.owned(d, j)[u]
    }

    /// Block 0 of `d` is a superblock with the magic number, and these
    /// are the regions that it describes.
    pub open spec fn described(self, d: Seq<Seq<u8>>) -> bool {
        let sb = SuperBlock::spec_decode(d[0]);
        &&& d.len() >= 1
        &&& sb.spec_is_valid()
        &&& 1 + sb.inode_bitmap_blocks + sb.inode_area_blocks + sb.data_bitmap_blocks <= u64::MAX
        &&& spec_geometry_of(sb) == self
    }

    /// The blocks `d` hold a filesystem with these regions.
    #[verifier::opaque]
    pub open spec fn fs_ok(self, d: Seq<Seq<u8>>) -> bool {
        &&& blocks_wf(d)
        &&& self.wf(d.len())
        &&& self.described(d)
        &&& forall|i: int| self.inode_used(d, i) ==> #[trigger] self.inode_ok(d, i)
        &&& forall|i: int, j: int|
            self.inode_used(d, i) && self.inode_used(d, j) && i != j ==> #[trigger] self.disjoint(
                d,
                i,
                j,
            )
    }

    /// No id of `ids` is a block of the region `lo .. hi`.
    pub open spec fn avoids(ids: Seq<u64>, lo: int, hi: int) -> bool {
        forall|t: int| 0 <= t < ids.len() ==> !(lo <= #[trigger] ids[t] < hi)
    }

    /// A change that stays out of a region leaves the bits of a bitmap in
    /// that region as they are.
    pub proof fn lemma_bits_kept(
        d: Seq<Seq<u8>>,
        e: Seq<Seq<u8>>,
        ids: Seq<u64>,
        start: int,
        blocks: int,
    )
        requires
            spec_unchanged_outside(d, e, ids),
            0 <= start,
            0 <= blocks,
            start + blocks <= d.len(),
            d.len() <= u64::MAX,
            Self::avoids(ids, start, start + blocks),
        ensures
            forall|b: int|
                0 <= b < blocks * 4096 ==> spec_bit_set(e, start, b) == spec_bit_set(d, start, b),
    {
        assert forall|b: int| 0 <= b < blocks * 4096 implies spec_bit_set(e, start, b)
            == spec_bit_set(d, start, b) by {
            let blk = start + b / 4096;
            if ids.contains(blk as u64) {
                let t = choose|t: int| 0 <= t < ids.len() && ids[t] == blk as u64;
                assert(start <= ids[t] < start + blocks);
            }
            assert(e[blk] == d[blk]);
        }
    }

    /// An inode is left as it is by a change that stays out of its record
    /// and out of its index blocks and that clears no bit of a block it
    /// refers to.
    pub proof fn lemma_inode_kept(self, d: Seq<Seq<u8>>, e: Seq<Seq<u8>>, ids: Seq<u64>, i: int)
        requires
            self.wf(d.len()),
            blocks_wf(e),
            0 <= i < self.inode_count(),
            self.inode_ok(d, i),
            spec_unchanged_outside(d, e, ids),
            !ids.contains(self.record_block(i) as u64),
            forall|t: int|
                0 <= t < spec_index_ids(d, self.meta(d, i).indirect, self.meta(d, i).size).len()
                    ==> !ids.contains(
                    #[trigger] spec_index_ids(d, self.meta(d, i).indirect, self.meta(d, i).size)[t],
                ),
            forall|t: int|
                0 <= t < self.owned(d, i).len() ==> self.data_used(e, #[trigger] self.owned(d, i)[t]),
        ensures
            self.inode_ok(e, i),
            self.meta(e, i) == self.meta(d, i),
            self.owned(e, i) == self.owned(d, i),
            spec_data_ids(e, self.meta(e, i)) == spec_data_ids(d, self.meta(d, i)),
            spec_index_ids(e, self.meta(e, i).indirect, self.meta(e, i).size) == spec_index_ids(
                d,
                self.meta(d, i).indirect,
                self.meta(d, i).size,
            ),
    {
        let m = self.meta(d, i);
        assert(e[self.record_block(i)] == d[self.record_block(i)]);
        lemma_unchanged_keeps_index(d, e, ids, m.indirect, m.size);
        lemma_tree_frame(d, e, m);
        assert forall|t: int| 0 <= t < self.owned(e, i).len() implies self.data_used(
            e,
            #[trigger] self.owned(e, i)[t],
        ) by {
            assert(self.owned(e, i)[t] == self.owned(d, i)[t]);
        }
    }

    /// The contents of an inode are left as they are by a change that
    /// stays out of its record and out of every block it refers to.
    pub proof fn lemma_data_kept(self, d: Seq<Seq<u8>>, e: Seq<Seq<u8>>, ids: Seq<u64>, i: int)
        requires
            self.wf(d.len()),
            blocks_wf(e),
            0 <= i < self.inode_count(),
            self.inode_ok(d, i),
            spec_unchanged_outside(d, e, ids),
            !ids.contains(self.record_block(i) as u64),
            forall|t: int| 0 <= t < self.owned(d, i).len() ==> !ids.contains(#[trigger] self.owned(d, i)[t]),
            forall|t: int|
                0 <= t < self.owned(d, i).len() ==> self.data_used(e, #[trigger] self.owned(d, i)[t]),
        ensures
            self.inode_ok(e, i),
            self.meta(e, i) == self.meta(d, i),
            self.owned(e, i) == self.owned(d, i),
            self.file(e, i) == self.file(d, i),
            spec_data_ids(e, self.meta(e, i)) == spec_data_ids(d, self.meta(d, i)),
            spec_index_ids(e, self.meta(e, i).indirect, self.meta(e, i).size) == spec_index_ids(
                d,
                self.meta(d, i).indirect,
                self.meta(d, i).size,
            ),
    {
        let m = self.meta(d, i);
        let idx = spec_index_ids(d, m.indirect, m.size);
        let dat = spec_data_ids(d, m);
        assert forall|t: int| 0 <= t < idx.len() implies !ids.contains(#[trigger] idx[t]) by {
            assert(self.owned(d, i)[t] == idx[t]);
        }
        self.lemma_inode_kept(d, e, ids, i);
        assert(self.data(e, i) =~= self.data(d, i)) by {
            assert forall|t: int| 0 <= t < dat.len() implies e[(#[trigger] dat[t]) as int]
                == d[dat[t] as int] by {
                assert(self.owned(d, i)[idx.len() + t] == dat[t]);
                assert(!ids.contains(dat[t]));
                assert(self.data_used(e, dat[t]));
            }
            assert(dat.len() == super::layout::spec_data_blocks(m.size));
        }
    }

    /// The change from `d` to `e`, which touches the blocks `ids` only,
    /// spares inode `i`: it touches no block that the inode refers to and
    /// leaves the bits of those blocks set.
    pub open spec fn spared(self, d: Seq<Seq<u8>>, e: Seq<Seq<u8>>, ids: Seq<u64>, i: int) -> bool {
        forall|t: int|
            0 <= t < self.owned(d, i).len() ==> !ids.contains(#[trigger] self.owned(d, i)[t])
                && self.data_used(e, self.owned(d, i)[t])
    }

    /// Inode `i` is the same in `d` and `e`: the same record, the same
    /// index blocks and data blocks, the same contents.
    pub open spec fn same_inode(self, d: Seq<Seq<u8>>, e: Seq<Seq<u8>>, i: int) -> bool {
        &&& self.same_layout(d, e, i)
        &&& self.file(e, i) == self.file(d, i)
    }

    /// Inode `i` has the same record, the same index blocks and the same
    /// data blocks in `d` and `e`; the contents may differ.
    pub open spec fn same_layout(self, d: Seq<Seq<u8>>, e: Seq<Seq<u8>>, i: int) -> bool {
        &&& self.meta(e, i) == self.meta(d, i)
        &&& self.owned(e, i) == self.owned(d, i)
        &&& spec_data_ids(e, self.meta(e, i)) == spec_data_ids(d, self.meta(d, i))
        &&& spec_index_ids(e, self.meta(e, i).indirect, self.meta(e, i).size) == spec_index_ids(
            d,
            self.meta(d, i).indirect,
            self.meta(d, i).size,
        )
    }

    /// The inodes in use are the same in `d` and `e`.
    pub open spec fn same_inodes(self, d: Seq<Seq<u8>>, e: Seq<Seq<u8>>) -> bool {
        forall|i: int| #[trigger] self.inode_used(e, i) == self.inode_used(d, i)
    }

    /// A change that stays out of the inode bitmap, out of the inode area
    /// and out of every block that an inode refers to leaves the
    /// filesystem consistent and every file as it is.
    #[verifier::spinoff_prover]
    #[verifier::rlimit(40)]
    pub proof fn lemma_fs_kept(self, d: Seq<Seq<u8>>, e: Seq<Seq<u8>>, ids: Seq<u64>)
        requires
            self.fs_ok(d),
            blocks_wf(e),
            spec_unchanged_outside(d, e, ids),
            Self::avoids(ids, 0, self.inode_area_start + self.inode_count()),
            forall|i: int| self.inode_used(d, i) ==> #[trigger] self.spared(d, e, ids, i),
        ensures
            self.fs_ok(e),
            self.same_inodes(d, e),
            forall|i: int| self.inode_used(d, i) ==> #[trigger] self.same_inode(d, e, i),
    {
        reveal(Geometry::fs_ok);
        Self::lemma_bits_kept(d, e, ids, 1, self.inode_bitmap_blocks as int);
        assert(e[0] == d[0]) by {
            if ids.contains(0u64) {
                let t = choose|t: int| 0 <= t < ids.len() && ids[t] == 0u64;
                assert(!(0 <= ids[t] < self.inode_area_start + self.inode_count()));
            }
        }
        assert forall|i: int|
            #![trigger self.inode_ok(e, i)]
            #![trigger self.same_inode(d, e, i)]
            self.inode_used(d, i) implies self.inode_ok(e, i) && self.same_inode(d, e, i) by {
            assert(self.inode_ok(d, i));
            assert(self.spared(d, e, ids, i));
            if ids.contains(self.record_block(i) as u64) {
                let t = choose|t: int| 0 <= t < ids.len() && ids[t] == self.record_block(i) as u64;
                assert(1 <= ids[t] < self.inode_area_start + self.inode_count());
            }
            self.lemma_data_kept(d, e, ids, i);
        }
        assert forall|i: int, j: int|
            self.inode_used(e, i) && self.inode_used(e, j) && i != j implies #[trigger] self.disjoint(
            e,
            i,
            j,
        ) by {
            assert(self.disjoint(d, i, j));
            assert(self.same_inode(d, e, i));
            assert(self.same_inode(d, e, j));
        }
    }

    /// Inode `i` refers to none of the blocks `ids`.
    pub open spec fn apart(self, d: Seq<Seq<u8>>, i: int, ids: Seq<u64>) -> bool {
        forall|t: int, u: int|
            0 <= t < self.owned(d, i).len() && 0 <= u < ids.len() ==> #[trigger] self.owned(d, i)[t]
                != #[trigger] ids[u]
    }

    /// A change to one inode `n` leaves the filesystem consistent and
    /// every other file as it is, when it touches no block of another
    /// inode, the inode itself is well-formed afterwards, and the blocks
    /// that it refers to are blocks that no other inode refers to.
    #[verifier::spinoff_prover]
    #[verifier::rlimit(40)]
    pub proof fn lemma_fs_replace(self, d: Seq<Seq<u8>>, e: Seq<Seq<u8>>, ids: Seq<u64>, n: int)
        requires
            self.fs_ok(d),
            blocks_wf(e),
            self.inode_used(d, n),
            spec_unchanged_outside(d, e, ids),
            Self::avoids(ids, 0, self.inode_area_start as int),
            forall|t: int|
                0 <= t < ids.len() && self.inode_area_start <= #[trigger] ids[t]
                    < self.inode_area_start + self.inode_count() ==> ids[t] == self.record_block(n),
            forall|i: int| self.inode_used(d, i) && i != n ==> #[trigger] self.spared(d, e, ids, i),
            self.inode_ok(e, n),
            forall|i: int|
                self.inode_used(d, i) && i != n ==> #[trigger] self.apart(d, i, self.owned(e, n)),
        ensures
            self.fs_ok(e),
            self.same_inodes(d, e),
            forall|i: int| self.inode_used(d, i) && i != n ==> #[trigger] self.same_inode(d, e, i),
    {
        reveal(Geometry::fs_ok);
        Self::lemma_bits_kept(d, e, ids, 1, self.inode_bitmap_blocks as int);
        assert(e[0] == d[0]) by {
            if ids.contains(0u64) {
                let t = choose|t: int| 0 <= t < ids.len() && ids[t] == 0u64;
                assert(!(0 <= ids[t] < self.inode_area_start));
            }
        }
        assert forall|i: int|
            #![trigger self.inode_ok(e, i)]
            #![trigger self.same_inode(d, e, i)]
            self.inode_used(d, i) && i != n implies self.inode_ok(e, i) && self.same_inode(d, e, i) by {
            assert(self.inode_ok(d, i));
            assert(self.spared(d, e, ids, i));
            if ids.contains(self.record_block(i) as u64) {
                let t = choose|t: int| 0 <= t < ids.len() && ids[t] == self.record_block(i) as u64;
                assert(ids[t] == self.record_block(n));
            }
            self.lemma_data_kept(d, e, ids, i);
        }
        assert forall|i: int| self.inode_used(e, i) implies #[trigger] self.inode_ok(e, i) by {
            if i != n {
                assert(self.inode_used(d, i));
            }
        }
        assert forall|i: int, j: int|
            self.inode_used(e, i) && self.inode_used(e, j) && i != j implies #[trigger] self.disjoint(
            e,
            i,
            j,
        ) by {
            if i != n && j != n {
                assert(self.disjoint(d, i, j));
                assert(self.same_inode(d, e, i));
                assert(self.same_inode(d, e, j));
            } else {
                let o = if i == n {
                    j
                } else {
                    i
                };
                assert(self.inode_used(d, o) && o != n);
                assert(self.same_inode(d, e, o));
                assert(self.inode_ok(d, o));
                assert(self.apart(d, o, self.owned(e, n)));
                assert forall|t: int, u: int|
                    0 <= t < self.owned(e, n).len() && 0 <= u < self.owned(e, o).len() implies self.owned(
                    e,
                    n,
                )[t] != self.owned(e, o)[u] by {
                    assert(self.owned(d, o)[u] != self.owned(e, n)[t]);
                }
            }
        }
    }

    /// `e` is `d` with the bit of the data block `x` changed and nothing
    /// else.
    pub open spec fn data_bit_changed(self, d: Seq<Seq<u8>>, e: Seq<Seq<u8>>, x: u64) -> bool {
        &&& e.len() == d.len()
        &&& blocks_wf(e)
        &&& self.data_area_start <= x < self.data_area_start + self.data_count()
        &&& self.data_used(e, x) != self.data_used(d, x)
        &&& forall|y: u64| y != x ==> #[trigger] self.data_used(e, y) == self.data_used(d, y)
        &&& forall|b: int|
            0 <= b < d.len() && !(self.data_bitmap_start <= b < self.data_area_start) ==> #[trigger] e[b]
                == d[b]
    }

    /// Changing the bit of a data block that no inode refers to leaves
    /// the filesystem consistent and every file as it is.
    pub proof fn lemma_bit_change(self, d: Seq<Seq<u8>>, e: Seq<Seq<u8>>, x: u64)
        requires
            self.fs_ok(d),
            self.data_bit_changed(d, e, x),
            forall|i: int| self.inode_used(d, i) ==> !(#[trigger] self.owned(d, i)).contains(x),
        ensures
            self.fs_ok(e),
            self.same_inodes(d, e),
            forall|i: int| self.inode_used(d, i) ==> #[trigger] self.same_inode(d, e, i),
    {
        reveal(Geometry::fs_ok);
        let ids = Seq::new(
            self.data_bitmap_blocks as nat,
            |t: int| (self.data_bitmap_start + t) as u64,
        );
        assert(spec_unchanged_outside(d, e, ids)) by {
            assert forall|b: int| 0 <= b < d.len() && !ids.contains(b as u64) implies #[trigger] e[b]
                == d[b] by {
                if self.data_bitmap_start <= b < self.data_area_start {
                    assert(ids[b - self.data_bitmap_start] == b as u64);
                }
            }
        }
        assert forall|i: int| self.inode_used(d, i) implies #[trigger] self.spared(d, e, ids, i) by {
            assert(self.inode_ok(d, i));
            assert forall|t: int| 0 <= t < self.owned(d, i).len() implies !ids.contains(
                #[trigger] self.owned(d, i)[t],
            ) && self.data_used(e, self.owned(d, i)[t]) by {
                let y = self.owned(d, i)[t];
                assert(self.data_used(d, y));
                assert(self.owned(d, i).contains(y));
                assert(y != x);
                assert(self.data_used(e, y) == self.data_used(d, y));
            }
        }
        self.lemma_fs_kept(d, e, ids);
    }

    /// What consistency says outright: the regions fit the device, every
    /// inode in use is well-formed, and no two of them share a block.
    pub proof fn lemma_fs_ok(self, d: Seq<Seq<u8>>)
        requires
            self.fs_ok(d),
        ensures
            blocks_wf(d),
            self.wf(d.len()),
            self.described(d),
            forall|i: int| self.inode_used(d, i) ==> #[trigger] self.inode_ok(d, i),
            forall|i: int, j: int|
                self.inode_used(d, i) && self.inode_used(d, j) && i != j ==> #[trigger] self.disjoint(
                    d,
                    i,
                    j,
                ),
    {
        reveal(Geometry::fs_ok);
    }

    /// A block that is not in use belongs to no inode.
    pub proof fn lemma_unused_is_unowned(self, d: Seq<Seq<u8>>, x: u64)
        requires
            self.fs_ok(d),
            !self.data_used(d, x),
        ensures
            forall|i: int| self.inode_used(d, i) ==> !(#[trigger] self.owned(d, i)).contains(x),
    {
        reveal(Geometry::fs_ok);
        assert forall|i: int| self.inode_used(d, i) implies !(#[trigger] self.owned(d, i)).contains(
            x,
        ) by {
            assert(self.inode_ok(d, i));
            if self.owned(d, i).contains(x) {
                let t = choose|t: int| 0 <= t < self.owned(d, i).len() && self.owned(d, i)[t] == x;
                assert(self.data_used(d, self.owned(d, i)[t]));
            }
        }
    }

    /// Flipping bit `bit` of the data bitmap, and nothing else, changes
    /// the bit of the data block `data_area_start + bit`; when no inode
    /// refers to that block, the filesystem stays consistent, every file
    /// stays as it is, and the number of free blocks moves by one.
    pub proof fn lemma_data_bit_flipped(self, d: Seq<Seq<u8>>, e: Seq<Seq<u8>>, bit: int)
        requires
            self.fs_ok(d),
            0 <= bit < self.data_count(),
            e.len() == d.len(),
            blocks_wf(e),
            spec_bit_set(e, self.data_bitmap_start as int, bit) != spec_bit_set(
                d,
                self.data_bitmap_start as int,
                bit,
            ),
            forall|b: int|
                0 <= b < self.data_count() && b != bit ==> spec_bit_set(
                    e,
                    self.data_bitmap_start as int,
                    b,
                ) == spec_bit_set(d, self.data_bitmap_start as int, b),
            forall|i: int|
                0 <= i < d.len() && i != self.data_bitmap_start + bit / 4096 ==> e[i] == d[i],
            forall|i: int|
                self.inode_used(d, i) ==> !(#[trigger] self.owned(d, i)).contains(
                    (self.data_area_start + bit) as u64,
                ),
        ensures
            self.data_bit_changed(d, e, (self.data_area_start + bit) as u64),
            self.fs_ok(e),
            self.same_inodes(d, e),
            forall|i: int| self.inode_used(d, i) ==> #[trigger] self.same_inode(d, e, i),
            spec_bit_set(e, self.data_bitmap_start as int, bit) ==> super::bitmap::spec_count_clear(
                e,
                self.data_bitmap_start as int,
                self.data_count() as nat,
            ) + 1 == super::bitmap::spec_count_clear(
                d,
                self.data_bitmap_start as int,
                self.data_count() as nat,
            ),
            !spec_bit_set(e, self.data_bitmap_start as int, bit) ==> super::bitmap::spec_count_clear(
                e,
                self.data_bitmap_start as int,
                self.data_count() as nat,
            ) == super::bitmap::spec_count_clear(
                d,
                self.data_bitmap_start as int,
                self.data_count() as nat,
            ) + 1,
    {
        self.lemma_fs_ok(d);
        let x = (self.data_area_start + bit) as u64;
        let start = self.data_bitmap_start as int;
        assert(self.data_bit_changed(d, e, x)) by {
            assert forall|y: u64| y != x implies #[trigger] self.data_used(e, y) == self.data_used(
                d,
                y,
            ) by {
                if self.data_area_start <= y < self.data_area_start + self.data_count() {
                    let b = y - self.data_area_start;
                    assert(spec_bit_set(e, start, b) == spec_bit_set(d, start, b));
                }
            }
        }
        self.lemma_bit_change(d, e, x);
        super::bitmap::lemma_count_clear_flip(d, e, start, self.data_count() as nat, bit);
    }

    /// The number of free blocks of the data area.
    pub open spec fn free_blocks(self, d: Seq<Seq<u8>>) -> nat {
        spec_count_clear(d, self.data_bitmap_start as int, self.data_count() as nat)
    }

    /// A change that stays out of the data bitmap leaves the bits of the
    /// data blocks and the number of free blocks as they are.
    pub proof fn lemma_data_bits_kept(self, d: Seq<Seq<u8>>, e: Seq<Seq<u8>>, ids: Seq<u64>)
        requires
            self.wf(d.len()),
            spec_unchanged_outside(d, e, ids),
            Self::avoids(ids, self.data_bitmap_start as int, self.data_area_start as int),
        ensures
            forall|x: u64| #[trigger] self.data_used(e, x) == self.data_used(d, x),
            self.free_blocks(e) == self.free_blocks(d),
    {
        Self::lemma_bits_kept(
            d,
            e,
            ids,
            self.data_bitmap_start as int,
            self.data_bitmap_blocks as int,
        );
        lemma_count_clear_same_bits(
            d,
            e,
            self.data_bitmap_start as int,
            self.data_count() as nat,
        );
    }

    /// Every block that an inode in use refers to lies in the data area.
    pub proof fn lemma_owned_in_data_area(self, d: Seq<Seq<u8>>, i: int)
        requires
            self.fs_ok(d),
            self.inode_used(d, i),
        ensures
            self.inode_ok(d, i),
            forall|t: int|
                0 <= t < self.owned(d, i).len() ==> self.data_area_start <= #[trigger] self.owned(
                    d,
                    i,
                )[t] < self.data_area_start + self.data_count(),
            Self::avoids(self.owned(d, i), 0, self.data_area_start as int),
    {
        self.lemma_fs_ok(d);
        assert(self.inode_ok(d, i));
        assert forall|t: int| 0 <= t < self.owned(d, i).len() implies self.data_area_start
            <= #[trigger] self.owned(d, i)[t] < self.data_area_start + self.data_count() by {
            assert(self.data_used(d, self.owned(d, i)[t]));
        }
    }

    /// Writing the contents of inode `n` to its data blocks, block by
    /// block, makes them the contents of the inode and changes nothing
    /// else.
    #[verifier::spinoff_prover]
    #[verifier::rlimit(40)]
    pub proof fn lemma_fill(self, d: Seq<Seq<u8>>, e: Seq<Seq<u8>>, n: int, contents: Seq<u8>)
        requires
            self.fs_ok(d),
            self.inode_used(d, n),
            blocks_wf(e),
            spec_unchanged_outside(d, e, spec_data_ids(d, self.meta(d, n))),
            forall|t: int|
                0 <= t < spec_data_ids(d, self.meta(d, n)).len() ==> e[(#[trigger] spec_data_ids(
                    d,
                    self.meta(d, n),
                )[t]) as int] == spec_chunk(contents, t),
            self.meta(d, n).size == contents.len(),
        ensures
            self.fs_ok(e),
            self.same_inodes(d, e),
            forall|i: int| self.inode_used(d, i) && i != n ==> #[trigger] self.same_inode(d, e, i),
            self.same_layout(d, e, n),
            self.data(e, n) == contents,
            self.free_blocks(e) == self.free_blocks(d),
            forall|x: u64| #[trigger] self.data_used(e, x) == self.data_used(d, x),
    {
        self.lemma_fs_ok(d);
        self.lemma_owned_in_data_area(d, n);
        let m = self.meta(d, n);
        let idx = spec_index_ids(d, m.indirect, m.size);
        let ids = spec_data_ids(d, m);
        assert forall|t: int| 0 <= t < ids.len() implies self.owned(d, n)[idx.len() + t]
            == #[trigger] ids[t] by {}
        assert(Self::avoids(ids, 0, self.data_area_start as int)) by {
            assert forall|t: int| 0 <= t < ids.len() implies !(0 <= #[trigger] ids[t]
                < self.data_area_start) by {
                assert(self.owned(d, n)[idx.len() + t] == ids[t]);
            }
        }
        self.lemma_data_bits_kept(d, e, ids);
        assert(!ids.contains(self.record_block(n) as u64)) by {
            if ids.contains(self.record_block(n) as u64) {
                let t = choose|t: int| 0 <= t < ids.len() && ids[t] == self.record_block(n) as u64;
                assert(!(0 <= ids[t] < self.data_area_start));
            }
        }
        assert forall|t: int| 0 <= t < idx.len() implies !ids.contains(#[trigger] idx[t]) by {
            if ids.contains(idx[t]) {
                let u = choose|u: int| 0 <= u < ids.len() && ids[u] == idx[t];
                assert(self.owned(d, n)[t] == idx[t]);
                assert(self.owned(d, n)[idx.len() + u] == ids[u]);
            }
        }
        assert forall|t: int| 0 <= t < self.owned(d, n).len() implies self.data_used(
            e,
            #[trigger] self.owned(d, n)[t],
        ) by {
            assert(self.data_used(d, self.owned(d, n)[t]));
        }
        self.lemma_inode_kept(d, e, ids, n);
        assert forall|i: int| self.inode_used(d, i) && i != n implies #[trigger] self.spared(
            d,
            e,
            ids,
            i,
        ) by {
            assert(self.inode_ok(d, i));
            assert(self.disjoint(d, i, n));
            assert forall|t: int| 0 <= t < self.owned(d, i).len() implies !ids.contains(
                #[trigger] self.owned(d, i)[t],
            ) && self.data_used(e, self.owned(d, i)[t]) by {
                let y = self.owned(d, i)[t];
                assert(self.data_used(d, y));
                if ids.contains(y) {
                    let u = choose|u: int| 0 <= u < ids.len() && ids[u] == y;
                    assert(self.owned(d, n)[idx.len() + u] == ids[u]);
                }
            }
        }
        assert forall|i: int| self.inode_used(d, i) && i != n implies #[trigger] self.apart(
            d,
            i,
            self.owned(e, n),
        ) by {
            assert(self.disjoint(d, i, n));
        }
        assert(Self::avoids(ids, 0, self.inode_area_start as int));
        self.lemma_fs_replace(d, e, ids, n);
        assert(self.data(e, n) =~= contents) by {
            assert forall|p: int| 0 <= p < contents.len() implies self.data(e, n)[p]
                == contents[p] by {
                let t = p / 512;
                assert(0 <= t < ids.len());
                assert(e[ids[t] as int] == spec_chunk(contents, t));
                assert(spec_chunk(contents, t)[p % 512] == contents[512 * t + p % 512]);
            }
        }
    }

    /// The blocks that the record `m` refers to in `d`: index blocks,
    /// then data blocks.
    pub open spec fn footprint(d: Seq<Seq<u8>>, m: MetaView) -> Seq<u64> {
        spec_index_ids(d, m.indirect, m.size) + spec_data_ids(d, m)
    }

    /// `e` is `d` with the record of inode `n` replaced by `m`.
    pub open spec fn record_written(self, d: Seq<Seq<u8>>, e: Seq<Seq<u8>>, n: int, m: MetaView) -> bool {
        &&& e.len() == d.len()
        &&& blocks_wf(e)
        &&& forall|b: int| 0 <= b < d.len() && b != self.record_block(n) ==> #[trigger] e[b] == d[b]
        &&& spec_decode_meta(e[self.record_block(n)]) == Some(m)
    }

    /// Laying inode `n` out anew and then writing its record leaves the
    /// filesystem consistent and every other file as it is, when the
    /// layout touched, and the new record refers to, only blocks in use
    /// that no other inode refers to.
    #[verifier::spinoff_prover]
    #[verifier::rlimit(40)]
    pub proof fn lemma_relaid(
        self,
        d: Seq<Seq<u8>>,
        d2: Seq<Seq<u8>>,
        d3: Seq<Seq<u8>>,
        n: int,
        m2: MetaView,
        touched: Seq<u64>,
    )
        requires
            self.fs_ok(d),
            self.inode_used(d, n),
            spec_unchanged_outside(d, d2, touched),
            forall|t: int| 0 <= t < touched.len() ==> self.data_used(d, #[trigger] touched[t]),
            forall|i: int| self.inode_used(d, i) && i != n ==> #[trigger] self.apart(d, i, touched),
            spec_meta_wf(d2, m2),
            Self::footprint(d2, m2).no_duplicates(),
            forall|t: int|
                0 <= t < Self::footprint(d2, m2).len() ==> self.data_used(
                    d,
                    #[trigger] Self::footprint(d2, m2)[t],
                ),
            forall|i: int|
                self.inode_used(d, i) && i != n ==> #[trigger] self.apart(
                    d,
                    i,
                    Self::footprint(d2, m2),
                ),
            self.record_written(d2, d3, n, m2),
        ensures
            self.fs_ok(d3),
            self.same_inodes(d, d3),
            forall|i: int| self.inode_used(d, i) && i != n ==> #[trigger] self.same_inode(d, d3, i),
            self.meta(d3, n) == m2,
            self.owned(d3, n) == Self::footprint(d2, m2),
            spec_data_ids(d3, m2) == spec_data_ids(d2, m2),
            spec_index_ids(d3, m2.indirect, m2.size) == spec_index_ids(d2, m2.indirect, m2.size),
            forall|x: u64| #[trigger] self.data_used(d3, x) == self.data_used(d, x),
            self.free_blocks(d3) == self.free_blocks(d),
    {
        self.lemma_fs_ok(d);
        let rec = self.record_block(n) as u64;
        let ids = touched.push(rec);
        let own2 = Self::footprint(d2, m2);
        let idx2 = spec_index_ids(d2, m2.indirect, m2.size);
        assert forall|t: int| 0 <= t < ids.len() implies !(self.data_bitmap_start <= #[trigger] ids[t]
            < self.data_area_start) && !(0 <= ids[t] < self.inode_area_start) && (
        self.inode_area_start <= ids[t] < self.inode_area_start + self.inode_count() ==> ids[t]
            == self.record_block(n)) by {
            if t < touched.len() {
                assert(ids[t] == touched[t]);
                assert(self.data_used(d, touched[t]));
            }
        }
        assert(spec_unchanged_outside(d, d3, ids)) by {
            assert forall|b: int| 0 <= b < d.len() && !ids.contains(b as u64) implies #[trigger] d3[b]
                == d[b] by {
                assert(ids[touched.len() as int] == rec);
                assert(b != self.record_block(n));
                if touched.contains(b as u64) {
                    let t = choose|t: int| 0 <= t < touched.len() && touched[t] == b as u64;
                    assert(ids[t] == b as u64);
                }
                assert(d3[b] == d2[b]);
            }
        }
        self.lemma_data_bits_kept(d, d3, ids);
        let one = seq![rec];
        assert(spec_unchanged_outside(d2, d3, one)) by {
            assert forall|b: int| 0 <= b < d2.len() && !one.contains(b as u64) implies #[trigger] d3[b]
                == d2[b] by {
                assert(one[0] == rec);
            }
        }
        assert forall|t: int| 0 <= t < idx2.len() implies !one.contains(#[trigger] idx2[t]) by {
            assert(own2[t] == idx2[t]);
            assert(self.data_used(d, own2[t]));
        }
        lemma_unchanged_keeps_index(d2, d3, one, m2.indirect, m2.size);
        lemma_tree_frame(d2, d3, m2);
        assert(self.inode_ok(d3, n)) by {
            assert forall|t: int| 0 <= t < self.owned(d3, n).len() implies self.data_used(
                d3,
                #[trigger] self.owned(d3, n)[t],
            ) by {
                assert(self.owned(d3, n)[t] == own2[t]);
                assert(self.data_used(d, own2[t]));
            }
        }
        assert forall|i: int| self.inode_used(d, i) && i != n implies #[trigger] self.spared(
            d,
            d3,
            ids,
            i,
        ) by {
            assert(self.inode_ok(d, i));
            assert(self.apart(d, i, touched));
            assert forall|t: int| 0 <= t < self.owned(d, i).len() implies !ids.contains(
                #[trigger] self.owned(d, i)[t],
            ) && self.data_used(d3, self.owned(d, i)[t]) by {
                let y = self.owned(d, i)[t];
                assert(self.data_used(d, y));
                if ids.contains(y) {
                    let u = choose|u: int| 0 <= u < ids.len() && ids[u] == y;
                    if u < touched.len() {
                        assert(touched[u] == y);
                    }
                }
            }
        }
        assert(Self::avoids(ids, 0, self.inode_area_start as int));
        self.lemma_fs_replace(d, d3, ids, n);
    }

    /// A rearrangement `ids` of blocks that inode `n` referred to, with
    /// blocks in use that no inode referred to, holds only blocks in use
    /// that no other inode refers to.
    #[verifier::spinoff_prover]
    #[verifier::rlimit(40)]
    pub proof fn lemma_rearranged(self, d: Seq<Seq<u8>>, n: int, extra: Seq<u64>, ids: Seq<u64>)
        requires
            self.fs_ok(d),
            self.inode_used(d, n),
            ids.to_multiset() == (self.owned(d, n) + extra).to_multiset(),
            extra.no_duplicates(),
            forall|t: int| 0 <= t < extra.len() ==> self.data_used(d, #[trigger] extra[t]),
            forall|i: int| self.inode_used(d, i) ==> #[trigger] self.apart(d, i, extra),
        ensures
            ids.no_duplicates(),
            ids.len() == self.owned(d, n).len() + extra.len(),
            forall|t: int| 0 <= t < ids.len() ==> self.data_used(d, #[trigger] ids[t]),
            forall|i: int| self.inode_used(d, i) && i != n ==> #[trigger] self.apart(d, i, ids),
    {
        self.lemma_fs_ok(d);
        let own = self.owned(d, n);
        let all = own + extra;
        assert(self.inode_ok(d, n));
        assert(self.apart(d, n, extra));
        assert(all.no_duplicates()) by {
            assert forall|a: int, b: int| 0 <= a < all.len() && 0 <= b < all.len() && a != b implies all[a]
                != all[b] by {
                if a < own.len() && b < own.len() {
                } else if a >= own.len() && b >= own.len() {
                    assert(extra[a - own.len()] != extra[b - own.len()]);
                } else if a < own.len() {
                    assert(own[a] != extra[b - own.len()]);
                } else {
                    assert(own[b] != extra[a - own.len()]);
                }
            }
        }
        lemma_same_ids(all, ids);
        assert forall|t: int| 0 <= t < ids.len() implies self.data_used(d, #[trigger] ids[t]) by {
            assert(ids.contains(ids[t]));
            assert(all.contains(ids[t]));
            let u = choose|u: int| 0 <= u < all.len() && all[u] == ids[t];
            if u < own.len() {
                assert(self.data_used(d, own[u]));
            } else {
                assert(self.data_used(d, extra[u - own.len()]));
            }
        }
        assert forall|i: int| self.inode_used(d, i) && i != n implies #[trigger] self.apart(
            d,
            i,
            ids,
        ) by {
            assert(self.disjoint(d, i, n));
            assert(self.apart(d, i, extra));
            assert forall|t: int, u: int|
                0 <= t < self.owned(d, i).len() && 0 <= u < ids.len() implies #[trigger] self.owned(
                d,
                i,
            )[t] != #[trigger] ids[u] by {
                assert(ids.contains(ids[u]));
                assert(all.contains(ids[u]));
                let v = choose|v: int| 0 <= v < all.len() && all[v] == ids[u];
                if v < own.len() {
                    assert(self.owned(d, i)[t] != own[v]);
                } else {
                    assert(self.owned(d, i)[t] != extra[v - own.len()]);
                }
            }
        }
    }

    /// The index blocks of inode `n` are blocks in use that no other
    /// inode refers to.
    pub proof fn lemma_index_footprint(self, d: Seq<Seq<u8>>, n: int)
        requires
            self.fs_ok(d),
            self.inode_used(d, n),
        ensures
            forall|t: int|
                0 <= t < spec_index_ids(d, self.meta(d, n).indirect, self.meta(d, n).size).len()
                    ==> self.data_used(
                    d,
                    #[trigger] spec_index_ids(d, self.meta(d, n).indirect, self.meta(d, n).size)[t],
                ),
            forall|i: int|
                self.inode_used(d, i) && i != n ==> #[trigger] self.apart(
                    d,
                    i,
                    spec_index_ids(d, self.meta(d, n).indirect, self.meta(d, n).size),
                ),
    {
        self.lemma_fs_ok(d);
        let m = self.meta(d, n);
        let idx = spec_index_ids(d, m.indirect, m.size);
        let own = self.owned(d, n);
        assert(self.inode_ok(d, n));
        assert forall|t: int| 0 <= t < idx.len() implies self.data_used(d, #[trigger] idx[t]) by {
            assert(own[t] == idx[t]);
            assert(self.data_used(d, own[t]));
        }
        assert forall|i: int| self.inode_used(d, i) && i != n implies #[trigger] self.apart(
            d,
            i,
            idx,
        ) by {
            assert(self.disjoint(d, i, n));
            assert forall|t: int, u: int|
                0 <= t < self.owned(d, i).len() && 0 <= u < idx.len() implies #[trigger] self.owned(
                d,
                i,
            )[t] != #[trigger] idx[u] by {
                assert(own[u] == idx[u]);
                assert(self.owned(d, i)[t] != own[u]);
            }
        }
    }

    /// Blocks that were free before a change that kept every inode
    /// belong to no inode after it.
    pub proof fn lemma_fresh_blocks(self, d0: Seq<Seq<u8>>, d1: Seq<Seq<u8>>, extra: Seq<u64>)
        requires
            self.fs_ok(d0),
            self.same_inodes(d0, d1),
            forall|i: int| self.inode_used(d0, i) ==> #[trigger] self.same_inode(d0, d1, i),
            forall|t: int| 0 <= t < extra.len() ==> !self.data_used(d0, #[trigger] extra[t]),
        ensures
            forall|i: int| self.inode_used(d1, i) ==> #[trigger] self.apart(d1, i, extra),
    {
        self.lemma_fs_ok(d0);
        assert forall|i: int| self.inode_used(d1, i) implies #[trigger] self.apart(d1, i, extra) by {
            assert(self.inode_used(d1, i) == self.inode_used(d0, i));
            assert(self.same_inode(d0, d1, i));
            assert(self.inode_ok(d0, i));
            assert forall|t: int, u: int|
                0 <= t < self.owned(d1, i).len() && 0 <= u < extra.len() implies #[trigger] self.owned(
                d1,
                i,
            )[t] != #[trigger] extra[u] by {
                assert(self.data_used(d0, self.owned(d0, i)[t]));
            }
        }
    }

    /// The blocks `extra`, all different, were free in `d0` and are in
    /// use in `d1`, which has every inode of `d0` as it was.
    pub open spec fn taken(self, d0: Seq<Seq<u8>>, d1: Seq<Seq<u8>>, extra: Seq<u64>) -> bool {
        &&& self.fs_ok(d0)
        &&& self.fs_ok(d1)
        &&& self.same_inodes(d0, d1)
        &&& forall|i: int| self.inode_used(d0, i) ==> #[trigger] self.same_inode(d0, d1, i)
        &&& extra.no_duplicates()
        &&& forall|t: int|
            0 <= t < extra.len() ==> !self.data_used(d0, #[trigger] extra[t]) && self.data_used(
                d1,
                extra[t],
            )
    }

    /// The ids that an inode has, with freshly taken blocks added in the
    /// right numbers, are what it takes to lay the inode out at its new
    /// size.
    #[verifier::spinoff_prover]
    #[verifier::rlimit(40)]
    pub proof fn lemma_grow_input(
        self,
        d0: Seq<Seq<u8>>,
        d1: Seq<Seq<u8>>,
        n: int,
        new_size: u64,
        ed: Seq<u64>,
        ei: Seq<u64>,
    )
        requires
            self.taken(d0, d1, ed + ei),
            self.inode_used(d0, n),
            self.meta(d0, n).size <= new_size <= L4_MAX,
            ed.len() == spec_data_blocks(new_size) - spec_data_blocks(self.meta(d0, n).size),
            ei.len() == spec_index_blocks(new_size).spec_index_block_count() - spec_index_blocks(
                self.meta(d0, n).size,
            ).spec_index_block_count(),
        ensures
            self.meta(d1, n) == self.meta(d0, n),
            spec_meta_wf(d1, self.meta(d1, n)),
            spec_layout_input(
                d1,
                new_size,
                spec_sort(
                    spec_index_ids(d1, self.meta(d1, n).indirect, self.meta(d1, n).size),
                ) + ei,
                spec_data_ids(d1, self.meta(d1, n)) + ed,
            ),
            forall|t: int|
                0 <= t < (spec_sort(
                    spec_index_ids(d1, self.meta(d1, n).indirect, self.meta(d1, n).size),
                ) + ei).len() ==> #[trigger] (spec_sort(
                    spec_index_ids(d1, self.meta(d1, n).indirect, self.meta(d1, n).size),
                ) + ei)[t] != self.record_block(n),
            d1.len() <= u64::MAX,
            self.record_block(n) < d1.len(),
    {
        self.lemma_fs_ok(d1);
        assert(self.same_inode(d0, d1, n));
        assert(self.inode_used(d1, n) == self.inode_used(d0, n));
        assert(self.inode_ok(d1, n));
        let m = self.meta(d1, n);
        let idx = spec_index_ids(d1, m.indirect, m.size);
        let dat = spec_data_ids(d1, m);
        let extra = ed + ei;
        lemma_sorted_index(d1, m.indirect, m.size);
        lemma_data_ids_nonzero(d1, m);
        self.lemma_fresh_blocks(d0, d1, extra);
        lemma_grown_rearranges(idx, dat, ei, ed);
        self.lemma_rearranged(d1, n, extra, (spec_sort(idx) + ei) + (dat + ed));
        let index = spec_sort(idx) + ei;
        let data = dat + ed;
        let all = index + data;
        assert(index.no_duplicates()) by {
            assert forall|a: int, b: int|
                0 <= a < index.len() && 0 <= b < index.len() && a != b implies index[a]
                != index[b] by {
                assert(all[a] == index[a]);
                assert(all[b] == index[b]);
            }
        }
        assert forall|i: int| 0 <= i < data.len() implies #[trigger] data[i] != 0 by {
            assert(all[index.len() + i] == data[i]);
            assert(self.data_used(d1, all[index.len() + i]));
        }
        assert forall|i: int| 0 <= i < index.len() implies #[trigger] index[i] != 0 && index[i]
            < d1.len() && index[i] != self.record_block(n) by {
            assert(all[i] == index[i]);
            assert(self.data_used(d1, all[i]));
        }
    }

    /// Blocks taken in two batches were taken.
    pub proof fn lemma_two_batches(
        self,
        d0: Seq<Seq<u8>>,
        mid: Seq<Seq<u8>>,
        d1: Seq<Seq<u8>>,
        ed: Seq<u64>,
        ei: Seq<u64>,
    )
        requires
            self.fs_ok(d0),
            self.fs_ok(d1),
            self.same_inodes(d0, d1),
            forall|i: int| self.inode_used(d0, i) ==> #[trigger] self.same_inode(d0, d1, i),
            ed.no_duplicates(),
            ei.no_duplicates(),
            forall|t: int|
                0 <= t < ed.len() ==> !self.data_used(d0, #[trigger] ed[t]) && self.data_used(
                    mid,
                    ed[t],
                ),
            forall|t: int|
                0 <= t < ei.len() ==> !self.data_used(mid, #[trigger] ei[t]) && self.data_used(
                    d1,
                    ei[t],
                ),
            forall|x: u64| self.data_used(d0, x) ==> #[trigger] self.data_used(mid, x),
            forall|x: u64| self.data_used(mid, x) ==> #[trigger] self.data_used(d1, x),
        ensures
            self.taken(d0, d1, ed + ei),
    {
        let extra = ed + ei;
        assert(extra.no_duplicates()) by {
            assert forall|a: int, b: int|
                0 <= a < extra.len() && 0 <= b < extra.len() && a != b implies extra[a]
                != extra[b] by {
                if a < ed.len() && b < ed.len() {
                } else if a >= ed.len() && b >= ed.len() {
                    assert(ei[a - ed.len()] != ei[b - ed.len()]);
                } else if a < ed.len() {
                    assert(self.data_used(mid, ed[a]));
                    assert(!self.data_used(mid, ei[b - ed.len()]));
                } else {
                    assert(self.data_used(mid, ed[b]));
                    assert(!self.data_used(mid, ei[a - ed.len()]));
                }
            }
        }
        assert forall|t: int| 0 <= t < extra.len() implies !self.data_used(
            d0,
            #[trigger] extra[t],
        ) && self.data_used(d1, extra[t]) by {
            if t < ed.len() {
                assert(extra[t] == ed[t]);
                assert(self.data_used(mid, ed[t]));
            } else {
                let x = ei[t - ed.len()];
                assert(extra[t] == x);
                assert(!self.data_used(mid, x));
                if self.data_used(d0, x) {
                    assert(self.data_used(mid, x));
                }
            }
        }
    }

    /// Growing inode `n` with freshly taken blocks and then writing its
    /// record leaves the filesystem consistent and every other file as it
    /// is.
    #[verifier::spinoff_prover]
    #[verifier::rlimit(40)]
    pub proof fn lemma_grown(
        self,
        d0: Seq<Seq<u8>>,
        d1: Seq<Seq<u8>>,
        d2: Seq<Seq<u8>>,
        d3: Seq<Seq<u8>>,
        n: int,
        m2: MetaView,
        ed: Seq<u64>,
        ei: Seq<u64>,
    )
        requires
            self.taken(d0, d1, ed + ei),
            self.inode_used(d0, n),
            spec_unchanged_outside(
                d1,
                d2,
                spec_index_ids(d1, self.meta(d1, n).indirect, self.meta(d1, n).size) + ei,
            ),
            spec_meta_wf(d2, m2),
            spec_index_ids(d2, m2.indirect, m2.size) == spec_sort(
                spec_index_ids(d1, self.meta(d1, n).indirect, self.meta(d1, n).size),
            ) + ei,
            spec_data_ids(d2, m2) == spec_data_ids(d1, self.meta(d1, n)) + ed,
            self.record_written(d2, d3, n, m2),
        ensures
            self.fs_ok(d3),
            self.same_inodes(d0, d3),
            forall|i: int| self.inode_used(d0, i) && i != n ==> #[trigger] self.same_inode(d0, d3, i),
            self.meta(d3, n) == m2,
            spec_meta_wf(d3, m2),
            self.owned(d3, n).len() == self.owned(d0, n).len() + ed.len() + ei.len(),
            self.free_blocks(d3) == self.free_blocks(d1),
            spec_data_ids(d3, m2) == spec_data_ids(d0, self.meta(d0, n)) + ed,
            spec_index_ids(d3, m2.indirect, m2.size) == spec_sort(
                spec_index_ids(d0, self.meta(d0, n).indirect, self.meta(d0, n).size),
            ) + ei,
            forall|x: u64| #[trigger] self.data_used(d3, x) == self.data_used(d1, x),
    {
        self.lemma_fs_ok(d1);
        assert(self.same_inode(d0, d1, n));
        assert(self.inode_used(d1, n) == self.inode_used(d0, n));
        let m = self.meta(d1, n);
        let idx = spec_index_ids(d1, m.indirect, m.size);
        let dat = spec_data_ids(d1, m);
        let extra = ed + ei;
        let touched = idx + ei;
        self.lemma_fresh_blocks(d0, d1, extra);
        lemma_grown_rearranges(idx, dat, ei, ed);
        self.lemma_rearranged(d1, n, extra, (spec_sort(idx) + ei) + (dat + ed));
        self.lemma_index_footprint(d1, n);
        assert forall|t: int| 0 <= t < touched.len() implies self.data_used(
            d1,
            #[trigger] touched[t],
        ) by {
            if t < idx.len() {
                assert(touched[t] == idx[t]);
            } else {
                assert(touched[t] == ei[t - idx.len()]);
                assert(extra[ed.len() + (t - idx.len())] == ei[t - idx.len()]);
            }
        }
        assert forall|i: int| self.inode_used(d1, i) && i != n implies #[trigger] self.apart(
            d1,
            i,
            touched,
        ) by {
            assert(self.apart(d1, i, idx));
            assert(self.apart(d1, i, extra));
            assert forall|t: int, u: int|
                0 <= t < self.owned(d1, i).len() && 0 <= u < touched.len() implies #[trigger] self.owned(
                d1,
                i,
            )[t] != #[trigger] touched[u] by {
                if u < idx.len() {
                    assert(touched[u] == idx[u]);
                } else {
                    assert(touched[u] == extra[ed.len() + (u - idx.len())]);
                }
            }
        }
        self.lemma_relaid(d1, d2, d3, n, m2, touched);
        assert forall|i: int| self.inode_used(d0, i) && i != n implies #[trigger] self.same_inode(
            d0,
            d3,
            i,
        ) by {
            assert(self.same_inode(d0, d1, i));
            assert(self.inode_used(d1, i) == self.inode_used(d0, i));
            assert(self.same_inode(d1, d3, i));
        }
        assert forall|i: int| #[trigger] self.inode_used(d3, i) == self.inode_used(d0, i) by {
            assert(self.inode_used(d1, i) == self.inode_used(d0, i));
            assert(self.inode_used(d3, i) == self.inode_used(d1, i));
        }
        self.lemma_fs_ok(d3);
        assert(self.inode_ok(d3, n));
    }

    /// The sorted index ids and the data ids of inode `n`, each cut in
    /// two at `ni` and at `nd`.
    pub open spec fn cut_kept(self, d: Seq<Seq<u8>>, n: int, ni: int, nd: int) -> Seq<u64> {
        spec_sort(
            spec_index_ids(d, self.meta(d, n).indirect, self.meta(d, n).size),
        ).subrange(0, ni) + spec_data_ids(d, self.meta(d, n)).subrange(0, nd)
    }

    /// What was cut off the sorted index ids and the data ids of inode
    /// `n` at `ni` and at `nd`.
    pub open spec fn cut_off(self, d: Seq<Seq<u8>>, n: int, ni: int, nd: int) -> Seq<u64> {
        spec_sort(
            spec_index_ids(d, self.meta(d, n).indirect, self.meta(d, n).size),
        ).subrange(
            ni,
            spec_sort(
                spec_index_ids(d, self.meta(d, n).indirect, self.meta(d, n).size),
            ).len() as int,
        ) + spec_data_ids(d, self.meta(d, n)).subrange(
            nd,
            spec_data_ids(d, self.meta(d, n)).len() as int,
        )
    }

    /// What is kept of an inode and what is cut off are together blocks
    /// in use, each there once, that no other inode refers to.
    pub proof fn lemma_cut_parts(self, d0: Seq<Seq<u8>>, n: int, ni: int, nd: int)
        requires
            self.fs_ok(d0),
            self.inode_used(d0, n),
            0 <= ni <= spec_index_ids(d0, self.meta(d0, n).indirect, self.meta(d0, n).size).len(),
            0 <= nd <= spec_data_ids(d0, self.meta(d0, n)).len(),
        ensures
            (self.cut_kept(d0, n, ni, nd) + self.cut_off(d0, n, ni, nd)).no_duplicates(),
            self.cut_kept(d0, n, ni, nd).len() == ni + nd,
            forall|t: int|
                0 <= t < (self.cut_kept(d0, n, ni, nd) + self.cut_off(d0, n, ni, nd)).len()
                    ==> self.data_used(
                    d0,
                    #[trigger] (self.cut_kept(d0, n, ni, nd) + self.cut_off(d0, n, ni, nd))[t],
                ),
            forall|i: int|
                self.inode_used(d0, i) && i != n ==> #[trigger] self.apart(
                    d0,
                    i,
                    self.cut_kept(d0, n, ni, nd) + self.cut_off(d0, n, ni, nd),
                ),
    {
        let m = self.meta(d0, n);
        let idx = spec_index_ids(d0, m.indirect, m.size);
        let dat = spec_data_ids(d0, m);
        let all = self.cut_kept(d0, n, ni, nd) + self.cut_off(d0, n, ni, nd);
        let none = Seq::<u64>::empty();
        lemma_cut_rearranges(idx, dat, ni, nd);
        assert(self.owned(d0, n) + none =~= idx + dat);
        assert forall|i: int| self.inode_used(d0, i) implies #[trigger] self.apart(d0, i, none) by {}
        self.lemma_rearranged(d0, n, none, all);
    }

    /// A part of a list of blocks in use, each there once, that no other
    /// inode refers to is such a list.
    pub proof fn lemma_part(self, d: Seq<Seq<u8>>, n: int, all: Seq<u64>, from: int, to: int)
        requires
            0 <= from <= to <= all.len(),
            all.no_duplicates(),
            forall|t: int| 0 <= t < all.len() ==> self.data_used(d, #[trigger] all[t]),
            forall|i: int| self.inode_used(d, i) && i != n ==> #[trigger] self.apart(d, i, all),
        ensures
            all.subrange(from, to).no_duplicates(),
            forall|t: int|
                0 <= t < all.subrange(from, to).len() ==> self.data_used(
                    d,
                    #[trigger] all.subrange(from, to)[t],
                ),
            forall|i: int|
                self.inode_used(d, i) && i != n ==> #[trigger] self.apart(
                    d,
                    i,
                    all.subrange(from, to),
                ),
    {
        let part = all.subrange(from, to);
        assert forall|a: int, b: int|
            0 <= a < part.len() && 0 <= b < part.len() && a != b implies part[a] != part[b] by {
            assert(all[from + a] == part[a]);
            assert(all[from + b] == part[b]);
        }
        assert forall|t: int| 0 <= t < part.len() implies self.data_used(d, #[trigger] part[t]) by {
            assert(all[from + t] == part[t]);
        }
        assert forall|i: int| self.inode_used(d, i) && i != n implies #[trigger] self.apart(
            d,
            i,
            part,
        ) by {
            assert(self.apart(d, i, all));
            assert forall|t: int, u: int|
                0 <= t < self.owned(d, i).len() && 0 <= u < part.len() implies #[trigger] self.owned(
                d,
                i,
            )[t] != #[trigger] part[u] by {
                assert(all[from + u] == part[u]);
            }
        }
    }

    /// Cutting inode `n` short and then writing its record leaves the
    /// filesystem consistent and every other file as it is.
    #[verifier::spinoff_prover]
    #[verifier::rlimit(40)]
    pub proof fn lemma_cut(
        self,
        d0: Seq<Seq<u8>>,
        d2: Seq<Seq<u8>>,
        d3: Seq<Seq<u8>>,
        n: int,
        m2: MetaView,
        ni: int,
        nd: int,
    )
        requires
            self.fs_ok(d0),
            self.inode_used(d0, n),
            0 <= ni <= spec_index_ids(d0, self.meta(d0, n).indirect, self.meta(d0, n).size).len(),
            0 <= nd <= spec_data_ids(d0, self.meta(d0, n)).len(),
            spec_unchanged_outside(
                d0,
                d2,
                spec_index_ids(d0, self.meta(d0, n).indirect, self.meta(d0, n).size),
            ),
            spec_meta_wf(d2, m2),
            Self::footprint(d2, m2) == self.cut_kept(d0, n, ni, nd),
            self.record_written(d2, d3, n, m2),
        ensures
            self.fs_ok(d3),
            self.same_inodes(d0, d3),
            forall|i: int| self.inode_used(d0, i) && i != n ==> #[trigger] self.same_inode(d0, d3, i),
            self.meta(d3, n) == m2,
            spec_meta_wf(d3, m2),
            self.owned(d3, n) == self.cut_kept(d0, n, ni, nd),
            self.owned(d3, n).len() == ni + nd,
            self.free_blocks(d3) == self.free_blocks(d0),
            forall|x: u64| #[trigger] self.data_used(d3, x) == self.data_used(d0, x),
            spec_data_ids(d3, m2) == spec_data_ids(d2, m2),
            spec_index_ids(d3, m2.indirect, m2.size) == spec_index_ids(d2, m2.indirect, m2.size),
    {
        let m = self.meta(d0, n);
        let idx = spec_index_ids(d0, m.indirect, m.size);
        let kept = self.cut_kept(d0, n, ni, nd);
        let all = kept + self.cut_off(d0, n, ni, nd);
        self.lemma_cut_parts(d0, n, ni, nd);
        self.lemma_index_footprint(d0, n);
        self.lemma_part(d0, n, all, 0, kept.len() as int);
        assert(all.subrange(0, kept.len() as int) =~= kept);
        self.lemma_relaid(d0, d2, d3, n, m2, idx);
        self.lemma_fs_ok(d3);
        assert(self.inode_ok(d3, n));
    }

    /// The blocks that were cut off an inode are in use, each once, and
    /// no inode refers to them any more.
    #[verifier::spinoff_prover]
    #[verifier::rlimit(40)]
    pub proof fn lemma_cut_freed(self, d0: Seq<Seq<u8>>, d3: Seq<Seq<u8>>, n: int, ni: int, nd: int)
        requires
            self.fs_ok(d0),
            self.inode_used(d0, n),
            0 <= ni <= spec_index_ids(d0, self.meta(d0, n).indirect, self.meta(d0, n).size).len(),
            0 <= nd <= spec_data_ids(d0, self.meta(d0, n)).len(),
            self.same_inodes(d0, d3),
            forall|i: int| self.inode_used(d0, i) && i != n ==> #[trigger] self.same_inode(d0, d3, i),
            self.owned(d3, n) == self.cut_kept(d0, n, ni, nd),
            forall|x: u64| #[trigger] self.data_used(d3, x) == self.data_used(d0, x),
        ensures
            self.cut_off(d0, n, ni, nd).no_duplicates(),
            forall|t: int|
                0 <= t < self.cut_off(d0, n, ni, nd).len() ==> self.data_used(
                    d3,
                    #[trigger] self.cut_off(d0, n, ni, nd)[t],
                ),
            forall|i: int|
                self.inode_used(d3, i) ==> #[trigger] self.apart(d3, i, self.cut_off(d0, n, ni, nd)),
    {
        let kept = self.cut_kept(d0, n, ni, nd);
        let cut = self.cut_off(d0, n, ni, nd);
        let all = kept + cut;
        self.lemma_cut_parts(d0, n, ni, nd);
        self.lemma_part(d0, n, all, kept.len() as int, all.len() as int);
        assert(all.subrange(kept.len() as int, all.len() as int) =~= cut);
        assert forall|t: int| 0 <= t < cut.len() implies self.data_used(d3, #[trigger] cut[t]) by {
            assert(self.data_used(d0, cut[t]));
        }
        assert forall|i: int| self.inode_used(d3, i) implies #[trigger] self.apart(d3, i, cut) by {
            assert(self.inode_used(d3, i) == self.inode_used(d0, i));
            if i == n {
                assert forall|t: int, u: int|
                    0 <= t < self.owned(d3, i).len() && 0 <= u < cut.len() implies #[trigger] self.owned(
                    d3,
                    i,
                )[t] != #[trigger] cut[u] by {
                    assert(all[t] == kept[t]);
                    assert(all[kept.len() + u] == cut[u]);
                }
            } else {
                assert(self.same_inode(d0, d3, i));
                assert(self.apart(d0, i, cut));
            }
        }
    }

    /// The blocks `ids`, all different, are in use, and no inode refers to
    /// them: they can be given back to the free blocks.
    pub open spec fn freeable(self, d: Seq<Seq<u8>>, ids: Seq<u64>) -> bool {
        &&& ids.no_duplicates()
        &&& forall|t: int| 0 <= t < ids.len() ==> self.data_used(d, #[trigger] ids[t])
        &&& forall|i: int| self.inode_used(d, i) ==> #[trigger] self.apart(d, i, ids)
    }

    /// Blocks in use that no inode refers to can be given back in any
    /// order: a list that holds them, each once, is a list of blocks in
    /// use that no inode refers to.
    pub proof fn lemma_same_blocks_free(self, d: Seq<Seq<u8>>, cut: Seq<u64>, all: Seq<u64>)
        requires
            forall|t: int| 0 <= t < cut.len() ==> self.data_used(d, #[trigger] cut[t]),
            forall|i: int| self.inode_used(d, i) ==> #[trigger] self.apart(d, i, cut),
            forall|u: int| 0 <= u < all.len() ==> cut.contains(#[trigger] all[u]),
        ensures
            forall|t: int| 0 <= t < all.len() ==> self.data_used(d, #[trigger] all[t]),
            forall|i: int| self.inode_used(d, i) ==> #[trigger] self.apart(d, i, all),
    {
        assert forall|t: int| 0 <= t < all.len() implies self.data_used(d, #[trigger] all[t]) by {
            assert(cut.contains(all[t]));
            let v = choose|v: int| 0 <= v < cut.len() && cut[v] == all[t];
            assert(self.data_used(d, cut[v]));
        }
        assert forall|i: int| self.inode_used(d, i) implies #[trigger] self.apart(d, i, all) by {
            assert(self.apart(d, i, cut));
            assert forall|t: int, u: int|
                0 <= t < self.owned(d, i).len() && 0 <= u < all.len() implies #[trigger] self.owned(
                d,
                i,
            )[t] != #[trigger] all[u] by {
                assert(cut.contains(all[u]));
                let v = choose|v: int| 0 <= v < cut.len() && cut[v] == all[u];
                assert(self.owned(d, i)[t] != cut[v]);
            }
        }
    }

    /// The record of an inode in use lies on the device, apart from every
    /// index block of the inode.
    pub proof fn lemma_record_apart(self, d: Seq<Seq<u8>>, n: int)
        requires
            self.fs_ok(d),
            self.inode_used(d, n),
        ensures
            d.len() <= u64::MAX,
            0 <= self.record_block(n) < d.len(),
            self.inode_ok(d, n),
            spec_index_ids(d, self.meta(d, n).indirect, self.meta(d, n).size).len()
                == spec_index_blocks(self.meta(d, n).size).spec_index_block_count(),
            spec_data_ids(d, self.meta(d, n)).len() == spec_data_blocks(self.meta(d, n).size),
            self.meta(d, n).size <= L4_MAX,
            forall|t: int|
                0 <= t < spec_sort(
                    spec_index_ids(d, self.meta(d, n).indirect, self.meta(d, n).size),
                ).len() ==> #[trigger] spec_sort(
                    spec_index_ids(d, self.meta(d, n).indirect, self.meta(d, n).size),
                )[t] != self.record_block(n),
    {
        self.lemma_fs_ok(d);
        assert(self.inode_ok(d, n));
        let m = self.meta(d, n);
        let idx = spec_index_ids(d, m.indirect, m.size);
        let sorted = spec_sort(idx);
        lemma_sorted_index(d, m.indirect, m.size);
        super::tree::lemma_index_ids_valid(d, m.indirect, m.size);
        lemma_data_ids_nonzero(d, m);
        self.lemma_index_footprint(d, n);
        assert forall|t: int| 0 <= t < sorted.len() implies #[trigger] sorted[t]
            != self.record_block(n) by {
            assert(sorted.contains(sorted[t]));
            assert(idx.contains(sorted[t]));
            let u = choose|u: int| 0 <= u < idx.len() && idx[u] == sorted[t];
            assert(self.data_used(d, idx[u]));
        }
    }

    /// The number of free inodes.
    pub open spec fn free_inodes(self, d: Seq<Seq<u8>>) -> nat {
        spec_count_clear(d, 1, self.inode_count() as nat)
    }

    /// Taking the free inode `id` into use and writing the record of an
    /// empty file or directory for it leaves the filesystem consistent and
    /// every other file as it is.
    #[verifier::spinoff_prover]
    #[verifier::rlimit(40)]
    pub proof fn lemma_inode_added(
        self,
        d0: Seq<Seq<u8>>,
        d1: Seq<Seq<u8>>,
        d2: Seq<Seq<u8>>,
        id: int,
        type_: InodeType,
        name: Seq<u8>,
    )
        requires
            self.fs_ok(d0),
            0 <= id < self.inode_count(),
            !self.inode_used(d0, id),
            d1.len() == d0.len(),
            blocks_wf(d1),
            spec_bit_set(d1, 1, id),
            forall|b: int|
                0 <= b < self.inode_count() && b != id ==> spec_bit_set(d1, 1, b) == spec_bit_set(
                    d0,
                    1,
                    b,
                ),
            forall|i: int| 0 <= i < d0.len() && i != 1 + id / 4096 ==> d1[i] == d0[i],
            name.len() == 200,
            self.record_written(d1, d2, id, spec_empty_meta(type_, name)),
        ensures
            self.fs_ok(d2),
            self.inode_used(d2, id),
            forall|i: int| i != id ==> #[trigger] self.inode_used(d2, i) == self.inode_used(d0, i),
            forall|i: int| self.inode_used(d0, i) ==> #[trigger] self.same_inode(d0, d2, i),
            self.file(d2, id) == (FileView { type_, name, data: Seq::empty() }),
            self.owned(d2, id).len() == 0,
            self.free_blocks(d2) == self.free_blocks(d0),
            forall|x: u64| #[trigger] self.data_used(d2, x) == self.data_used(d0, x),
    {
        reveal(Geometry::fs_ok);
        let m = spec_empty_meta(type_, name);
        let rec = self.record_block(id) as u64;
        let bm = (1 + id / 4096) as u64;
        let ids = seq![bm, rec];
        assert(ids[0] == bm && ids[1] == rec);
        assert(spec_unchanged_outside(d0, d2, ids)) by {
            assert forall|b: int| 0 <= b < d0.len() && !ids.contains(b as u64) implies #[trigger] d2[b]
                == d0[b] by {
                assert(b != bm && b != rec);
                assert(d2[b] == d1[b]);
            }
        }
        assert(d2[0] == d0[0]) by {
            assert(d1[0] == d0[0]);
            assert(d2[0] == d1[0]);
        }
        assert(Self::avoids(ids, self.data_bitmap_start as int, self.data_area_start as int)) by {
            assert forall|t: int| 0 <= t < ids.len() implies !(self.data_bitmap_start <= #[trigger] ids[t]
                < self.data_area_start) by {}
        }
        self.lemma_data_bits_kept(d0, d2, ids);
        assert forall|i: int| i != id implies #[trigger] self.inode_used(d2, i) == self.inode_used(
            d0,
            i,
        ) by {
            if 0 <= i < self.inode_count() {
                let blk = 1 + i / 4096;
                assert(spec_bit_set(d1, 1, i) == spec_bit_set(d0, 1, i));
                assert(d2[blk] == d1[blk]);
            }
        }
        assert(self.inode_used(d2, id)) by {
            assert(d2[1 + id / 4096] == d1[1 + id / 4096]);
        }
        assert forall|i: int|
            #![trigger self.inode_ok(d2, i)]
            #![trigger self.same_inode(d0, d2, i)]
            self.inode_used(d0, i) implies self.inode_ok(d2, i) && self.same_inode(d0, d2, i) by {
            assert(self.inode_ok(d0, i));
            assert(i != id);
            assert forall|t: int| 0 <= t < self.owned(d0, i).len() implies !ids.contains(
                #[trigger] self.owned(d0, i)[t],
            ) && self.data_used(d2, self.owned(d0, i)[t]) by {
                assert(self.data_used(d0, self.owned(d0, i)[t]));
            }
            self.lemma_data_kept(d0, d2, ids, i);
        }
        assert(self.inode_ok(d2, id)) by {
            assert(self.meta(d2, id) == m);
            assert(spec_index_ids(d2, 0, 0) =~= Seq::<u64>::empty());
            assert(spec_data_ids(d2, m) =~= Seq::<u64>::empty());
            assert(self.owned(d2, id) =~= Seq::<u64>::empty());
        }
        assert(self.data(d2, id) =~= Seq::<u8>::empty());
        assert forall|i: int| self.inode_used(d2, i) implies #[trigger] self.inode_ok(d2, i) by {
            if i != id {
                assert(self.inode_used(d0, i));
            }
        }
        assert forall|i: int, j: int|
            self.inode_used(d2, i) && self.inode_used(d2, j) && i != j implies #[trigger] self.disjoint(
            d2,
            i,
            j,
        ) by {
            if i != id && j != id {
                assert(self.disjoint(d0, i, j));
                assert(self.same_inode(d0, d2, i));
                assert(self.same_inode(d0, d2, j));
            }
        }
    }

    /// Where the same inodes are in use, as many inodes are free.
    pub proof fn lemma_same_inodes_free(self, d: Seq<Seq<u8>>, e: Seq<Seq<u8>>)
        requires
            self.same_inodes(d, e),
        ensures
            self.free_inodes(e) == self.free_inodes(d),
    {
        assert forall|b: int| 0 <= b < self.inode_count() implies spec_bit_set(d, 1, b)
            == spec_bit_set(e, 1, b) by {
            assert(self.inode_used(e, b) == self.inode_used(d, b));
        }
        lemma_count_clear_same_bits(d, e, 1, self.inode_count() as nat);
    }

    /// A bitmap whose blocks are all zero has no bit set.
    pub proof fn lemma_zero_bitmap(d: Seq<Seq<u8>>, start: int, blocks: int)
        requires
            0 <= start,
            0 <= blocks,
            start + blocks <= d.len(),
            forall|b: int| start <= b < start + blocks ==> #[trigger] d[b] == spec_zeros(512),
        ensures
            forall|i: int| 0 <= i < blocks * 4096 ==> !spec_bit_set(d, start, i),
            spec_count_clear(d, start, (blocks * 4096) as nat) == blocks * 4096,
    {
        assert forall|i: int| 0 <= i < blocks * 4096 implies !spec_bit_set(d, start, i) by {
            let blk = start + i / 4096;
            let off = ((i % 4096) / 64) * 8;
            assert(d[blk] == spec_zeros(512));
            lemma_zero_word(d[blk], off);
            let sh = (i % 64) as u64;
            assert((0u64 >> sh) & 1 == 0) by (bit_vector);
        }
        lemma_empty_count(d, start, (blocks * 4096) as nat);
    }

    /// Blocks whose inode bitmap is all zero hold a consistent filesystem
    /// without any inode.
    pub proof fn lemma_fresh(self, d: Seq<Seq<u8>>)
        requires
            blocks_wf(d),
            self.wf(d.len()),
            self.described(d),
            forall|b: int|
                1 <= b < 1 + self.inode_bitmap_blocks ==> #[trigger] d[b] == spec_zeros(512),
        ensures
            self.fs_ok(d),
            forall|i: int| !self.inode_used(d, i),
            self.free_inodes(d) == self.inode_count(),
    {
        reveal(Geometry::fs_ok);
        Self::lemma_zero_bitmap(d, 1, self.inode_bitmap_blocks as int);
    }
}

/// The regions of a filesystem of `total_blocks` blocks with an inode
/// bitmap of `inode_bitmap_blocks` blocks: one record block for every
/// inode, and of what is left one bitmap block for every 4096 data blocks.
pub open spec fn spec_init_geometry(total_blocks: u64, inode_bitmap_blocks: u64) -> Geometry {
    let inode_area_blocks = inode_bitmap_blocks * 4096;
    let data_total = total_blocks - 1 - inode_bitmap_blocks - inode_area_blocks;
    let data_bitmap_blocks = data_total / 4097;
    Geometry {
        inode_bitmap_start: 1,
        inode_bitmap_blocks,
        inode_area_start: (1 + inode_bitmap_blocks) as u64,
        data_bitmap_start: (1 + inode_bitmap_blocks + inode_area_blocks) as u64,
        data_bitmap_blocks: data_bitmap_blocks as u64,
        data_area_start: (1 + inode_bitmap_blocks + inode_area_blocks + data_bitmap_blocks) as u64,
    }
}

/// The superblock of a filesystem of `total_blocks` blocks with an inode
/// bitmap of `inode_bitmap_blocks` blocks.
pub open spec fn spec_init_superblock(total_blocks: u64, inode_bitmap_blocks: u64) -> SuperBlock {
    let inode_area_blocks = inode_bitmap_blocks * 4096;
    let data_total = total_blocks - 1 - inode_bitmap_blocks - inode_area_blocks;
    let data_bitmap_blocks = data_total / 4097;
    SuperBlock {
        magic: FS_MAGIC,
        total_blocks,
        inode_bitmap_blocks,
        inode_area_blocks: inode_area_blocks as u64,
        data_bitmap_blocks: data_bitmap_blocks as u64,
        data_area_blocks: (data_total - data_bitmap_blocks) as u64,
    }
}

/// A filesystem of `total_blocks` blocks with an inode bitmap of
/// `inode_bitmap_blocks` blocks can be made: there is an inode, the byte
/// offsets of the inode records can be counted in 64 bits, and the
/// superblock, the inode bitmap and the inode area fit.
pub open spec fn spec_init_fits(total_blocks: u64, inode_bitmap_blocks: u64) -> bool {
    &&& inode_bitmap_blocks >= 1
    &&& inode_bitmap_blocks * 4096 * 512 + 511 <= u64::MAX
    &&& 1 + inode_bitmap_blocks + inode_bitmap_blocks * 4096 <= total_blocks
}

/// The regions that a superblock describes.
pub open spec fn spec_geometry_of(sb: SuperBlock) -> Geometry {
    Geometry {
        inode_bitmap_start: 1,
        inode_bitmap_blocks: sb.inode_bitmap_blocks,
        inode_area_start: (1 + sb.inode_bitmap_blocks) as u64,
        data_bitmap_start: (1 + sb.inode_bitmap_blocks + sb.inode_area_blocks) as u64,
        data_bitmap_blocks: sb.data_bitmap_blocks,
        data_area_start: (1 + sb.inode_bitmap_blocks + sb.inode_area_blocks
            + sb.data_bitmap_blocks) as u64,
    }
}

/// The blocks `d` hold a formatted, consistent filesystem: block 0 is a
/// superblock with the magic number, the regions that it describes follow
/// one another on the device, and the blocks are consistent for them.
pub open spec fn spec_formatted(d: Seq<Seq<u8>>) -> bool {
    &&& d.len() >= 1
    &&& spec_geometry_of(SuperBlock::spec_decode(d[0])).fs_ok(d)
}

/// The blocks of a consistent filesystem are formatted, whatever the
/// filesystem has gone through: mounting them gives its regions and its
/// files.
pub proof fn lemma_formatted(g: Geometry, d: Seq<Seq<u8>>)
    requires
        g.fs_ok(d),
    ensures
        spec_formatted(d),
        spec_geometry_of(SuperBlock::spec_decode(d[0])) == g,
        SuperBlock::spec_decode(d[0]).spec_is_valid(),
{
    g.lemma_fs_ok(d);
}

impl Geometry {
    /// What bringing inode `n` to another size, or leaving it at its
    /// size, has done to the blocks between `d` and `e`.
    ///
    /// The data blocks that the file had and still has are at their
    /// places. At another size the index blocks that it had and still has
    /// are those with the lowest ids, in ascending order; at the same size
    /// the index is untouched. Every block that the inode has taken was
    /// free before. A block of the data area is in use afterwards exactly
    /// if the inode refers to it afterwards, or it was in use and the inode
    /// did not refer to it: the blocks that the inode gave up are free,
    /// and no other bit has changed.
    pub open spec fn resized(self, d: Seq<Seq<u8>>, e: Seq<Seq<u8>>, n: int) -> bool {
        let a = spec_data_ids(d, self.meta(d, n));
        let b = spec_data_ids(e, self.meta(e, n));
        let ia = spec_index_ids(d, self.meta(d, n).indirect, self.meta(d, n).size);
        let ib = spec_index_ids(e, self.meta(e, n).indirect, self.meta(e, n).size);
        &&& forall|i: int| 0 <= i < a.len() && i < b.len() ==> #[trigger] b[i] == a[i]
        &&& (self.meta(e, n).size == self.meta(d, n).size ==> ib == ia)
        &&& (self.meta(e, n).size != self.meta(d, n).size ==> forall|i: int|
            0 <= i < ia.len() && i < ib.len() ==> #[trigger] ib[i] == spec_sort(ia)[i])
        &&& forall|x: u64|
            self.owned(e, n).contains(x) && !self.owned(d, n).contains(x) ==> !#[trigger] self.data_used(
                d,
                x,
            )
        &&& forall|x: u64|
            #[trigger] self.data_used(e, x) <==> (self.owned(e, n).contains(x) || (self.data_used(
                d,
                x,
            ) && !self.owned(d, n).contains(x)))
    }

    /// Whether `x` is a block of the data area whose bit is clear.
    pub open spec fn data_free(self, d: Seq<Seq<u8>>, x: u64) -> bool {
        &&& self.data_area_start <= x < self.data_area_start + self.data_count()
        &&& !self.data_used(d, x)
    }

    /// The blocks `ids` are the lowest free blocks of the data area in
    /// `d`, in ascending order: each is free, and a free block below one
    /// of them is one of them.
    pub open spec fn lowest_free(self, d: Seq<Seq<u8>>, ids: Seq<u64>) -> bool {
        &&& forall|s: int, t: int| 0 <= s < t < ids.len() ==> #[trigger] ids[s] < #[trigger] ids[t]
        &&& forall|t: int| 0 <= t < ids.len() ==> self.data_free(d, #[trigger] ids[t])
        &&& forall|t: int, x: u64|
            0 <= t < ids.len() && x < #[trigger] ids[t] && #[trigger] self.data_free(d, x)
                ==> ids.contains(x)
    }

    /// Where inode `n` is larger in `e` than in `d`, the blocks that it
    /// has taken are the lowest blocks that were free in `d`, in ascending
    /// order: first its new data blocks, in the order of the file, then
    /// its new index blocks, in the order of its index.
    pub open spec fn took_lowest(self, d: Seq<Seq<u8>>, e: Seq<Seq<u8>>, n: int) -> bool {
        let a = spec_data_ids(d, self.meta(d, n));
        let b = spec_data_ids(e, self.meta(e, n));
        let ia = spec_index_ids(d, self.meta(d, n).indirect, self.meta(d, n).size);
        let ib = spec_index_ids(e, self.meta(e, n).indirect, self.meta(e, n).size);
        self.meta(e, n).size > self.meta(d, n).size ==> {
            &&& a.len() <= b.len()
            &&& ia.len() <= ib.len()
            &&& self.lowest_free(
                d,
                b.subrange(a.len() as int, b.len() as int) + ib.subrange(
                    ia.len() as int,
                    ib.len() as int,
                ),
            )
        }
    }

    /// The lowest free blocks with one more, the lowest block that is
    /// free once they are taken, are the lowest free blocks.
    pub proof fn lemma_lowest_more(self, d: Seq<Seq<u8>>, e: Seq<Seq<u8>>, ids: Seq<u64>, id: u64)
        requires
            self.lowest_free(d, ids),
            forall|x: u64| #[trigger] self.data_used(e, x) <==> (self.data_used(d, x) || ids.contains(x)),
            self.data_free(e, id),
            forall|x: u64| self.data_area_start <= x < id ==> #[trigger] self.data_used(e, x),
        ensures
            self.lowest_free(d, ids.push(id)),
    {
        let more = ids.push(id);
        assert(self.data_used(e, id) <==> (self.data_used(d, id) || ids.contains(id)));
        assert forall|t: int| 0 <= t < ids.len() implies #[trigger] ids[t] < id by {
            assert(ids.contains(ids[t]));
            if id < ids[t] {
                assert(self.data_free(d, id));
                assert(ids.contains(id));
            }
        }
        assert forall|t: int, x: u64|
            0 <= t < more.len() && x < #[trigger] more[t] && #[trigger] self.data_free(
                d,
                x,
            ) implies more.contains(x) by {
            if t < ids.len() {
                assert(ids[t] == more[t]);
                assert(ids.contains(x));
            } else {
                assert(self.data_used(e, x));
                assert(self.data_used(e, x) <==> (self.data_used(d, x) || ids.contains(x)));
            }
            let k = choose|k: int| 0 <= k < ids.len() && ids[k] == x;
            assert(more[k] == x);
        }
        assert forall|s: int, t: int| 0 <= s < t < more.len() implies #[trigger] more[s]
            < #[trigger] more[t] by {
            if t < ids.len() {
                assert(ids[s] < ids[t]);
            } else {
                assert(ids[s] < id);
            }
        }
    }

    /// The lowest free blocks, and then the lowest blocks that are free
    /// once they are taken, are together the lowest free blocks.
    pub proof fn lemma_lowest_two(
        self,
        d: Seq<Seq<u8>>,
        mid: Seq<Seq<u8>>,
        first: Seq<u64>,
        second: Seq<u64>,
    )
        requires
            self.lowest_free(d, first),
            self.lowest_free(mid, second),
            forall|x: u64|
                #[trigger] self.data_used(mid, x) <==> (self.data_used(d, x) || first.contains(x)),
        ensures
            self.lowest_free(d, first + second),
    {
        let all = first + second;
        assert forall|t: int| 0 <= t < second.len() implies self.data_free(d, #[trigger] second[t])
            && !first.contains(second[t]) by {
            assert(self.data_free(mid, second[t]));
            assert(self.data_used(mid, second[t]) <==> (self.data_used(d, second[t])
                || first.contains(second[t])));
        }
        assert forall|s: int, t: int| 0 <= s < first.len() && 0 <= t < second.len() implies #[trigger] first[s]
            < #[trigger] second[t] by {
            assert(first.contains(first[s]));
            if second[t] < first[s] {
                assert(self.data_free(d, second[t]));
                assert(first.contains(second[t]));
            }
        }
        assert forall|s: int, t: int| 0 <= s < t < all.len() implies #[trigger] all[s]
            < #[trigger] all[t] by {
            if t < first.len() {
                assert(first[s] < first[t]);
            } else if s < first.len() {
                assert(first[s] < second[t - first.len()]);
            } else {
                assert(second[s - first.len()] < second[t - first.len()]);
            }
        }
        assert forall|t: int| 0 <= t < all.len() implies self.data_free(d, #[trigger] all[t]) by {
            if t < first.len() {
                assert(self.data_free(d, first[t]));
            } else {
                assert(self.data_free(d, second[t - first.len()]));
            }
        }
        assert forall|t: int, x: u64|
            0 <= t < all.len() && x < #[trigger] all[t] && #[trigger] self.data_free(
                d,
                x,
            ) implies all.contains(x) by {
            assert(self.data_used(mid, x) <==> (self.data_used(d, x) || first.contains(x)));
            if t < first.len() {
                assert(all[t] == first[t]);
                assert(first.contains(x));
            } else {
                assert(all[t] == second[t - first.len()]);
                if self.data_free(mid, x) {
                    assert(second.contains(x));
                }
            }
            if first.contains(x) {
                let k = choose|k: int| 0 <= k < first.len() && first[k] == x;
                assert(all[k] == x);
            } else {
                let k = choose|k: int| 0 <= k < second.len() && second[k] == x;
                assert(all[first.len() + k] == x);
            }
        }
    }

    /// An inode that has grown by the lowest free blocks, its new data
    /// blocks before its new index blocks, has taken the lowest.
    pub proof fn lemma_grown_lowest(
        self,
        d0: Seq<Seq<u8>>,
        d3: Seq<Seq<u8>>,
        n: int,
        ed: Seq<u64>,
        ei: Seq<u64>,
    )
        requires
            self.lowest_free(d0, ed + ei),
            spec_data_ids(d3, self.meta(d3, n)) == spec_data_ids(d0, self.meta(d0, n)) + ed,
            spec_index_ids(d3, self.meta(d3, n).indirect, self.meta(d3, n).size) == spec_sort(
                spec_index_ids(d0, self.meta(d0, n).indirect, self.meta(d0, n).size),
            ) + ei,
        ensures
            self.took_lowest(d0, d3, n),
    {
        let a = spec_data_ids(d0, self.meta(d0, n));
        let b = spec_data_ids(d3, self.meta(d3, n));
        let ia = spec_index_ids(d0, self.meta(d0, n).indirect, self.meta(d0, n).size);
        let ib = spec_index_ids(d3, self.meta(d3, n).indirect, self.meta(d3, n).size);
        super::tree::lemma_sort_facts(ia);
        assert(b.subrange(a.len() as int, b.len() as int) =~= ed);
        assert(ib.subrange(ia.len() as int, ib.len() as int) =~= ei);
    }

    /// What an inode has taken stays taken when its contents are written
    /// afterwards.
    pub proof fn lemma_took_lowest_then(
        self,
        d: Seq<Seq<u8>>,
        e: Seq<Seq<u8>>,
        f: Seq<Seq<u8>>,
        n: int,
    )
        requires
            self.took_lowest(d, e, n),
            self.same_layout(e, f, n),
        ensures
            self.took_lowest(d, f, n),
    {
    }

    /// What was done to the blocks of an inode was done to them whatever
    /// came before, if that left the inode and the data bitmap alone.
    pub proof fn lemma_kept_then_resized(
        self,
        d: Seq<Seq<u8>>,
        e: Seq<Seq<u8>>,
        f: Seq<Seq<u8>>,
        n: int,
    )
        requires
            self.same_layout(d, e, n),
            forall|x: u64| #[trigger] self.data_used(e, x) == self.data_used(d, x),
            self.resized(e, f, n),
            self.took_lowest(e, f, n),
        ensures
            self.resized(d, f, n),
            self.took_lowest(d, f, n),
    {
        assert forall|x: u64|
            #[trigger] self.data_used(f, x) <==> (self.owned(f, n).contains(x) || (self.data_used(
                d,
                x,
            ) && !self.owned(d, n).contains(x))) by {
            assert(self.data_used(e, x) == self.data_used(d, x));
        }
        assert forall|x: u64|
            self.owned(f, n).contains(x) && !self.owned(d, n).contains(x) implies !#[trigger] self.data_used(
            d,
            x,
        ) by {
            assert(self.data_used(e, x) == self.data_used(d, x));
        }
        if self.meta(f, n).size > self.meta(d, n).size {
            let a = spec_data_ids(d, self.meta(d, n));
            let b = spec_data_ids(f, self.meta(f, n));
            let ia = spec_index_ids(d, self.meta(d, n).indirect, self.meta(d, n).size);
            let ib = spec_index_ids(f, self.meta(f, n).indirect, self.meta(f, n).size);
            let ids = b.subrange(a.len() as int, b.len() as int) + ib.subrange(
                ia.len() as int,
                ib.len() as int,
            );
            assert(self.lowest_free(e, ids));
            assert forall|t: int| 0 <= t < ids.len() implies self.data_free(d, #[trigger] ids[t]) by {
                assert(self.data_free(e, ids[t]));
                assert(self.data_used(e, ids[t]) == self.data_used(d, ids[t]));
            }
            assert forall|t: int, x: u64|
                0 <= t < ids.len() && x < #[trigger] ids[t] && #[trigger] self.data_free(
                    d,
                    x,
                ) implies ids.contains(x) by {
                assert(self.data_used(e, x) == self.data_used(d, x));
                assert(self.data_free(e, x));
            }
        }
    }

    /// An inode that is left alone is at its size with its blocks.
    pub proof fn lemma_resized_same(self, d: Seq<Seq<u8>>, n: int)
        requires
            self.fs_ok(d),
            self.inode_used(d, n),
        ensures
            self.resized(d, d, n),
    {
        self.lemma_fs_ok(d);
        assert(self.inode_ok(d, n));
        assert forall|x: u64| self.owned(d, n).contains(x) implies self.data_used(d, x) by {
            let t = choose|t: int| 0 <= t < self.owned(d, n).len() && self.owned(d, n)[t] == x;
            assert(self.data_used(d, self.owned(d, n)[t]));
        }
    }

    /// What was done to the blocks of an inode stays done when its
    /// contents are written afterwards.
    pub proof fn lemma_resized_then(self, d: Seq<Seq<u8>>, e: Seq<Seq<u8>>, f: Seq<Seq<u8>>, n: int)
        requires
            self.resized(d, e, n),
            self.same_layout(e, f, n),
            forall|x: u64| #[trigger] self.data_used(f, x) == self.data_used(e, x),
        ensures
            self.resized(d, f, n),
    {
        assert forall|x: u64|
            #[trigger] self.data_used(f, x) <==> (self.owned(f, n).contains(x) || (self.data_used(
                d,
                x,
            ) && !self.owned(d, n).contains(x))) by {
            assert(self.data_used(f, x) == self.data_used(e, x));
        }
    }

    /// Blocks taken in two batches are in use, and no other bit has
    /// changed.
    pub proof fn lemma_two_batches_used(
        self,
        d0: Seq<Seq<u8>>,
        mid: Seq<Seq<u8>>,
        d1: Seq<Seq<u8>>,
        ed: Seq<u64>,
        ei: Seq<u64>,
    )
        requires
            forall|x: u64|
                #[trigger] self.data_used(mid, x) <==> (self.data_used(d0, x) || ed.contains(x)),
            forall|x: u64|
                #[trigger] self.data_used(d1, x) <==> (self.data_used(mid, x) || ei.contains(x)),
        ensures
            forall|x: u64|
                #[trigger] self.data_used(d1, x) <==> (self.data_used(d0, x) || (ed + ei).contains(
                    x,
                )),
    {
        let extra = ed + ei;
        assert forall|x: u64|
            #[trigger] self.data_used(d1, x) <==> (self.data_used(d0, x) || extra.contains(x)) by {
            assert(self.data_used(mid, x) <==> (self.data_used(d0, x) || ed.contains(x)));
            if ed.contains(x) {
                let t = choose|t: int| 0 <= t < ed.len() && ed[t] == x;
                assert(extra[t] == x);
            }
            if ei.contains(x) {
                let t = choose|t: int| 0 <= t < ei.len() && ei[t] == x;
                assert(extra[ed.len() + t] == x);
            }
            if extra.contains(x) {
                let t = choose|t: int| 0 <= t < extra.len() && extra[t] == x;
                if t < ed.len() {
                    assert(ed[t] == x);
                } else {
                    assert(ei[t - ed.len()] == x);
                }
            }
        }
    }

    /// Growing inode `n` keeps its data blocks at their places, puts its
    /// index blocks in ascending order before the new ones, and takes the
    /// new blocks from the free blocks.
    #[verifier::spinoff_prover]
    #[verifier::rlimit(40)]
    pub proof fn lemma_grown_resized(
        self,
        d0: Seq<Seq<u8>>,
        d1: Seq<Seq<u8>>,
        d3: Seq<Seq<u8>>,
        n: int,
        ed: Seq<u64>,
        ei: Seq<u64>,
    )
        requires
            self.taken(d0, d1, ed + ei),
            self.inode_used(d0, n),
            forall|x: u64|
                #[trigger] self.data_used(d1, x) <==> (self.data_used(d0, x) || (ed + ei).contains(
                    x,
                )),
            forall|x: u64| #[trigger] self.data_used(d3, x) == self.data_used(d1, x),
            spec_data_ids(d3, self.meta(d3, n)) == spec_data_ids(d0, self.meta(d0, n)) + ed,
            spec_index_ids(d3, self.meta(d3, n).indirect, self.meta(d3, n).size) == spec_sort(
                spec_index_ids(d0, self.meta(d0, n).indirect, self.meta(d0, n).size),
            ) + ei,
            self.meta(d3, n).size != self.meta(d0, n).size,
        ensures
            self.resized(d0, d3, n),
    {
        self.lemma_fs_ok(d0);
        assert(self.inode_ok(d0, n));
        let m = self.meta(d0, n);
        let idx = spec_index_ids(d0, m.indirect, m.size);
        let dat = spec_data_ids(d0, m);
        let extra = ed + ei;
        let own0 = self.owned(d0, n);
        let own3 = self.owned(d3, n);
        super::tree::lemma_sort_facts(idx);
        lemma_grown_rearranges(idx, dat, ei, ed);
        lemma_same_ids(own0 + (ed + ei), own3);
        assert forall|x: u64| own3.contains(x) <==> (own0.contains(x) || extra.contains(x)) by {
            let all = own0 + extra;
            if all.contains(x) {
                let t = choose|t: int| 0 <= t < all.len() && all[t] == x;
                if t < own0.len() {
                    assert(own0[t] == x);
                } else {
                    assert(extra[t - own0.len()] == x);
                }
            }
            if own0.contains(x) {
                let t = choose|t: int| 0 <= t < own0.len() && own0[t] == x;
                assert(all[t] == x);
            }
            if extra.contains(x) {
                let t = choose|t: int| 0 <= t < extra.len() && extra[t] == x;
                assert(all[own0.len() + t] == x);
            }
        }
        assert forall|x: u64| own0.contains(x) implies self.data_used(d0, x) by {
            let t = choose|t: int| 0 <= t < own0.len() && own0[t] == x;
            assert(self.data_used(d0, own0[t]));
        }
        assert forall|x: u64| extra.contains(x) implies !self.data_used(d0, x) by {
            let t = choose|t: int| 0 <= t < extra.len() && extra[t] == x;
            assert(!self.data_used(d0, extra[t]));
        }
        assert forall|x: u64|
            #[trigger] self.data_used(d3, x) <==> (own3.contains(x) || (self.data_used(d0, x)
                && !own0.contains(x))) by {
            assert(self.data_used(d3, x) == self.data_used(d1, x));
            assert(own3.contains(x) <==> (own0.contains(x) || extra.contains(x)));
        }
        assert forall|x: u64| own3.contains(x) && !own0.contains(x) implies !#[trigger] self.data_used(
            d0,
            x,
        ) by {
            assert(own3.contains(x) <==> (own0.contains(x) || extra.contains(x)));
        }
    }

    /// The layout of inode `n` in `e` is that of `d` cut to its first `nd`
    /// data blocks and the first `ni` of its index blocks taken in
    /// ascending order, with the data bitmap as it was.
    pub open spec fn cut_to(self, d: Seq<Seq<u8>>, e: Seq<Seq<u8>>, n: int, ni: int, nd: int) -> bool {
        &&& 0 <= ni <= spec_index_ids(d, self.meta(d, n).indirect, self.meta(d, n).size).len()
        &&& 0 <= nd <= spec_data_ids(d, self.meta(d, n)).len()
        &&& spec_data_ids(e, self.meta(e, n)) == spec_data_ids(d, self.meta(d, n)).subrange(0, nd)
        &&& spec_index_ids(e, self.meta(e, n).indirect, self.meta(e, n).size) == spec_sort(
            spec_index_ids(d, self.meta(d, n).indirect, self.meta(d, n).size),
        ).subrange(0, ni)
        &&& forall|x: u64| #[trigger] self.data_used(e, x) == self.data_used(d, x)
    }

    /// Cutting inode `n` short keeps the data blocks and the index blocks
    /// that it still has, and once the blocks that were cut off have been
    /// given back, those and no others have become free.
    #[verifier::spinoff_prover]
    #[verifier::rlimit(40)]
    pub proof fn lemma_cut_resized(
        self,
        d0: Seq<Seq<u8>>,
        d3: Seq<Seq<u8>>,
        d4: Seq<Seq<u8>>,
        n: int,
        ni: int,
        nd: int,
        freed: Seq<u64>,
    )
        requires
            self.fs_ok(d0),
            self.inode_used(d0, n),
            0 <= ni <= spec_index_ids(d0, self.meta(d0, n).indirect, self.meta(d0, n).size).len(),
            0 <= nd <= spec_data_ids(d0, self.meta(d0, n)).len(),
            spec_data_ids(d3, self.meta(d3, n)) == spec_data_ids(d0, self.meta(d0, n)).subrange(
                0,
                nd,
            ),
            spec_index_ids(d3, self.meta(d3, n).indirect, self.meta(d3, n).size) == spec_sort(
                spec_index_ids(d0, self.meta(d0, n).indirect, self.meta(d0, n).size),
            ).subrange(0, ni),
            forall|x: u64| #[trigger] self.data_used(d3, x) == self.data_used(d0, x),
            forall|x: u64|
                #[trigger] self.data_used(d4, x) <==> (self.data_used(d3, x) && !freed.contains(x)),
            forall|x: u64| freed.contains(x) <==> self.cut_off(d0, n, ni, nd).contains(x),
            self.same_layout(d3, d4, n),
            self.meta(d3, n).size != self.meta(d0, n).size,
        ensures
            self.resized(d0, d4, n),
    {
        self.lemma_fs_ok(d0);
        assert(self.inode_ok(d0, n));
        let m = self.meta(d0, n);
        let idx = spec_index_ids(d0, m.indirect, m.size);
        let dat = spec_data_ids(d0, m);
        let own0 = self.owned(d0, n);
        let kept = self.cut_kept(d0, n, ni, nd);
        let cut = self.cut_off(d0, n, ni, nd);
        let all = kept + cut;
        assert(self.owned(d4, n) == kept);
        self.lemma_cut_parts(d0, n, ni, nd);
        lemma_cut_rearranges(idx, dat, ni, nd);
        lemma_same_ids(own0, all);
        assert forall|x: u64| own0.contains(x) <==> (kept.contains(x) || cut.contains(x)) by {
            if all.contains(x) {
                let t = choose|t: int| 0 <= t < all.len() && all[t] == x;
                if t < kept.len() {
                    assert(kept[t] == x);
                } else {
                    assert(cut[t - kept.len()] == x);
                }
            }
            if kept.contains(x) {
                let t = choose|t: int| 0 <= t < kept.len() && kept[t] == x;
                assert(all[t] == x);
            }
            if cut.contains(x) {
                let t = choose|t: int| 0 <= t < cut.len() && cut[t] == x;
                assert(all[kept.len() + t] == x);
            }
        }
        assert forall|x: u64| !(kept.contains(x) && cut.contains(x)) by {
            if kept.contains(x) && cut.contains(x) {
                let t = choose|t: int| 0 <= t < kept.len() && kept[t] == x;
                let u = choose|u: int| 0 <= u < cut.len() && cut[u] == x;
                assert(all[t] == x);
                assert(all[kept.len() + u] == x);
            }
        }
        assert forall|x: u64| own0.contains(x) implies self.data_used(d0, x) by {
            let t = choose|t: int| 0 <= t < own0.len() && own0[t] == x;
            assert(self.data_used(d0, own0[t]));
        }
        assert forall|x: u64|
            #[trigger] self.data_used(d4, x) <==> (kept.contains(x) || (self.data_used(d0, x)
                && !own0.contains(x))) by {
            assert(self.data_used(d3, x) == self.data_used(d0, x));
            assert(freed.contains(x) <==> cut.contains(x));
            assert(own0.contains(x) <==> (kept.contains(x) || cut.contains(x)));
            assert(!(kept.contains(x) && cut.contains(x)));
        }
        assert forall|x: u64| kept.contains(x) && !own0.contains(x) implies !#[trigger] self.data_used(
            d0,
            x,
        ) by {
            assert(own0.contains(x) <==> (kept.contains(x) || cut.contains(x)));
        }
    }
}

} // verus!
