//! The write-back block cache.
use crate::bytes::{get_u64, put_u64, spec_put_u64, spec_u64_at};
use crate::{blocks_wf, BlockDevice};
use vstd::prelude::*;

verus! {

/// Largest number of blocks that the cache holds at a time.
pub const CACHE_SIZE: usize = 32;

/// One cached block: its bytes, its id, and whether the bytes differ from
/// the device.
pub struct Cache {
    cache: [u8; 512],
    block_id: u64,
    modified: bool,
}

impl Cache {
    /// The cached bytes.
    pub closed spec fn view(&self) -> Seq<u8> {
        self.cache@
    }

    /// The id of the cached block.
    pub closed spec fn spec_block_id(&self) -> u64 {
        self.block_id
    }

    /// Whether the bytes may differ from the device.
    pub closed spec fn spec_modified(&self) -> bool {
        self.modified
    }

    /// Loads block `block_id` from the device.
    pub fn new<D: BlockDevice>(block_id: u64, block_device: &D) -> (c: Self)
        requires
            block_id < block_device.contents().len(),
        ensures
            c@ == block_device.contents()[block_id as int],
            c.spec_block_id() == block_id,
            !c.spec_modified(),
    {
        let mut cache = [0u8; 512];
        block_device.read_block(block_id, &mut cache);
        Self { cache, block_id, modified: false }
    }

    /// The id of the cached block.
    pub fn block_id(&self) -> (id: u64)
        ensures
            id == self.spec_block_id(),
    {
        self.block_id
    }

    /// The cached bytes, for reading.
    pub fn get_ref(&self) -> (r: &[u8; 512])
        ensures
            r@ == self@,
    {
        &self.cache
    }

    /// The cached bytes, for writing. The block counts as modified from
    /// here on, whatever the caller does with the bytes.
    pub fn get_mut(&mut self) -> (r: &mut [u8; 512])
        ensures
            r@ == old(self)@,
            final(self)@ == final(r)@,
            final(self).spec_block_id() == old(self).spec_block_id(),
            final(self).spec_modified(),
    {
        self.modified = true;
        &mut self.cache
    }

    /// Writes the block back to the device if it was modified.
    pub fn sync<D: BlockDevice>(&mut self, block_device: &mut D)
        requires
            old(self).spec_block_id() < old(block_device).contents().len(),
        ensures
            final(self)@ == old(self)@,
            final(self).spec_block_id() == old(self).spec_block_id(),
            !final(self).spec_modified(),
            old(self).spec_modified() ==> final(block_device).contents() == old(
                block_device,
            ).contents().update(old(self).spec_block_id() as int, old(self)@),
            !old(self).spec_modified() ==> final(block_device).contents() == old(
                block_device,
            ).contents(),
    {
        if self.modified {
            self.modified = false;
            block_device.write_block(self.block_id, &self.cache);
        }
    }

    /// The 64-bit word at byte `offset` of the block.
    pub fn read(&self, offset: usize) -> (x: u64)
        requires
            offset + 8 <= 512,
        ensures
            x == spec_u64_at(self@, offset as int),
    {
        get_u64(&self.cache, offset)
    }

    /// Stores the 64-bit word `x` at byte `offset` of the block and marks
    /// the block as modified.
    pub fn modify(&mut self, offset: usize, x: u64)
        requires
            offset + 8 <= 512,
        ensures
            final(self)@ == spec_put_u64(old(self)@, offset as int, x),
            final(self).spec_block_id() == old(self).spec_block_id(),
            final(self).spec_modified(),
    {
        self.modified = true;
        put_u64(&mut self.cache, offset, x);
    }
}

/// The bytes that a reader of block `b` sees: the cached bytes when a slot
/// holds the block, else the bytes of the device.
pub open spec fn spec_lookup(q: Seq<(u64, Cache)>, dev: Seq<Seq<u8>>, b: int) -> Seq<u8> {
    if exists|i: int| 0 <= i < q.len() && q[i].0 == b {
        let i = choose|i: int| 0 <= i < q.len() && q[i].0 == b;
        q[i].1@
    } else {
        dev[b]
    }
}

/// No two slots hold the same block.
pub open spec fn spec_distinct_slots(q: Seq<(u64, Cache)>) -> bool {
    forall|i: int, j: int| 0 <= i < j < q.len() ==> q[i].0 != q[j].0
}

proof fn lemma_lookup_hit(q: Seq<(u64, Cache)>, dev: Seq<Seq<u8>>, b: int, i: int)
    requires
        spec_distinct_slots(q),
        0 <= i < q.len(),
        q[i].0 == b,
    ensures
        spec_lookup(q, dev, b) == q[i].1@,
{
    let k = choose|k: int| 0 <= k < q.len() && q[k].0 == b;
    if k < i {
        assert(q[k].0 != q[i].0);
    } else if i < k {
        assert(q[i].0 != q[k].0);
    }
}

proof fn lemma_lookup_same_ids(
    q: Seq<(u64, Cache)>,
    p: Seq<(u64, Cache)>,
    dev: Seq<Seq<u8>>,
    pdev: Seq<Seq<u8>>,
    b: int,
)
    requires
        spec_distinct_slots(q),
        q.len() == p.len(),
        forall|i: int| 0 <= i < q.len() ==> (#[trigger] q[i]).0 == p[i].0,
    ensures
        spec_distinct_slots(p),
        forall|i: int| 0 <= i < q.len() && q[i].0 == b ==> spec_lookup(p, pdev, b) == p[i].1@,
        (forall|i: int| 0 <= i < q.len() ==> (#[trigger] q[i]).0 != b) ==> spec_lookup(p, pdev, b)
            == pdev[b],
{
    assert forall|i: int, j: int| 0 <= i < j < p.len() implies p[i].0 != p[j].0 by {
        assert(q[i].0 == p[i].0);
        assert(q[j].0 == p[j].0);
    }
    assert forall|i: int| 0 <= i < q.len() && q[i].0 == b implies spec_lookup(p, pdev, b)
        == p[i].1@ by {
        assert(q[i].0 == p[i].0);
        lemma_lookup_hit(p, pdev, b, i);
    }
    if forall|i: int| 0 <= i < q.len() ==> (#[trigger] q[i]).0 != b {
        if exists|i: int| 0 <= i < p.len() && p[i].0 == b {
            let i = choose|i: int| 0 <= i < p.len() && p[i].0 == b;
            assert(q[i].0 == p[i].0);
            assert(false);
        }
    }
}

/// The block cache: at most `CACHE_SIZE` blocks of one device, each held
/// once, written back when given up or flushed.
///
/// To its users the cache is the device as it would be if every write had
/// gone through: `view` gives that sequence of blocks.
pub struct CacheManager<D: BlockDevice> {
    queue: Vec<(u64, Cache)>,
    block_device: D,
}

impl<D: BlockDevice> CacheManager<D> {
    /// The device behind the cache.
    pub closed spec fn dev(&self) -> D {
        self.block_device
    }

    /// The occupied slots, each with the id of its block.
    pub closed spec fn slots(&self) -> Seq<(u64, Cache)> {
        self.queue@
    }

    /// The ids of the blocks that the slots hold, in the order of the
    /// slots.
    pub open spec fn spec_ids(&self) -> Seq<u64> {
        Seq::new(self.slots().len(), |i: int| self.slots()[i].0)
    }

    /// The slots after block `block_id`, which no slot holds, has been
    /// taken in: the block is added as the last slot; if the cache was
    /// full, the last slot first takes the place of the first, which is
    /// given up.
    pub open spec fn spec_ids_with(ids: Seq<u64>, block_id: u64) -> Seq<u64> {
        if ids.len() == CACHE_SIZE {
            ids.update(0, ids.last()).drop_last().push(block_id)
        } else {
            ids.push(block_id)
        }
    }

    /// The invariant of the cache: at most `CACHE_SIZE` slots, each for a
    /// block of the device and no block twice, and an unmodified slot holds
    /// what the device holds.
    pub open spec fn wf(&self) -> bool {
        let q = self.slots();
        let dev = self.dev().contents();
        &&& blocks_wf(dev)
        &&& q.len() <= CACHE_SIZE
        &&& spec_distinct_slots(q)
        &&& forall|i: int|
            0 <= i < q.len() ==> {
                &&& (#[trigger] q[i]).0 == q[i].1.spec_block_id()
                &&& q[i].0 < dev.len()
                &&& q[i].1@.len() == 512
                &&& (!q[i].1.spec_modified() ==> q[i].1@ == dev[q[i].0 as int])
            }
    }

    /// The blocks as a reader sees them through the cache.
    pub open spec fn view(&self) -> Seq<Seq<u8>> {
        Seq::new(
            self.dev().contents().len(),
            |b: int| spec_lookup(self.slots(), self.dev().contents(), b),
        )
    }

    /// Nothing is waiting to be written: the device holds what the cache shows.
    pub open spec fn is_clean(&self) -> bool {
        self.dev().contents() == self@
    }

    /// The view has one block of `BLOCK_SIZE` bytes for each block of the device.
    pub proof fn lemma_view_wf(&self)
        requires
            self.wf(),
        ensures
            blocks_wf(self@),
            self@.len() == self.dev().contents().len(),
    {
        let q = self.slots();
        let dev = self.dev().contents();
        assert forall|b: int| 0 <= b < self@.len() implies (#[trigger] self@[b]).len() == 512 by {
            if exists|i: int| 0 <= i < q.len() && q[i].0 == b {
                let i = choose|i: int| 0 <= i < q.len() && q[i].0 == b;
                assert(q[i].1@.len() == 512);
            }
        }
    }

    /// After a flush, a fresh cache in front of the same device shows
    /// every block as this cache shows it.
    pub proof fn lemma_flushed_is_seen(&self, fresh: &Self)
        requires
            self.is_clean(),
            fresh@ == self.dev().contents(),
        ensures
            fresh@ == self@,
    {
    }

    /// An empty cache in front of `block_device`.
    pub fn new(block_device: D) -> (c: Self)
        requires
            blocks_wf(block_device.contents()),
        ensures
            c.wf(),
            c.dev() == block_device,
            c@ == block_device.contents(),
            c.is_clean(),
            c.slots().len() == 0,
    {
        let c = Self { queue: Vec::new(), block_device };
        assert(c@ =~= block_device.contents());
        c
    }

    /// What asking for block `block_id` has done to the slots and to the
    /// device between `old` and this cache. Where a slot held the block,
    /// nothing. Else the block is in a new last slot; and where the cache
    /// was full, the last slot first took the place of the first, whose
    /// block was written to the device as the cache showed it.
    #[verifier::opaque]
    pub open spec fn spec_fetched(&self, old: &Self, block_id: u64) -> bool {
        let ids = old.spec_ids();
        if ids.contains(block_id) {
            self.spec_ids() == ids && self.dev() == old.dev()
        } else if ids.len() < CACHE_SIZE {
            self.spec_ids() == Self::spec_ids_with(ids, block_id) && self.dev() == old.dev()
        } else {
            self.spec_ids() == Self::spec_ids_with(ids, block_id) && self.dev().contents()
                == old.dev().contents().update(ids[0] as int, old@[ids[0] as int])
        }
    }

    /// The index of the slot that holds block `block_id`, loading the block
    /// into a new last slot first if no slot holds it. When the cache is
    /// full the first slot is written back and given up, and the last slot
    /// takes its place: slots are only borrowed for the length of a call,
    /// so none is in use when this runs.
    #[verifier::spinoff_prover]
    #[verifier::rlimit(40)]
    pub fn get(&mut self, block_id: u64) -> (slot: usize)
        requires
            old(self).wf(),
            block_id < old(self)@.len(),
        ensures
            final(self).wf(),
            final(self)@ == old(self)@,
            slot < final(self).slots().len(),
            final(self).slots()[slot as int].0 == block_id,
            final(self).slots()[slot as int].1@ == old(self)@[block_id as int],
            old(self).spec_ids().contains(block_id) ==> final(self).spec_ids() == old(self).spec_ids()
                && final(self).dev() == old(self).dev(),
            !old(self).spec_ids().contains(block_id) ==> final(self).spec_ids() == Self::spec_ids_with(
                old(self).spec_ids(),
                block_id,
            ) && slot == final(self).spec_ids().len() - 1,
            !old(self).spec_ids().contains(block_id) && old(self).spec_ids().len() < CACHE_SIZE
                ==> final(self).dev() == old(self).dev(),
            !old(self).spec_ids().contains(block_id) && old(self).spec_ids().len() == CACHE_SIZE
                ==> final(self).dev().contents() == old(self).dev().contents().update(
                old(self).spec_ids()[0] as int,
                old(self)@[old(self).spec_ids()[0] as int],
            ),
    {
        let ghost view0 = self@;
        let ghost ids0 = self.spec_ids();
        let n = self.queue.len();
        let mut i: usize = 0;
        while i < n
            invariant
                i <= n,
                n == self.queue@.len(),
                *self == *old(self),
                self.wf(),
                block_id < self@.len(),
                forall|j: int| 0 <= j < i ==> self.queue@[j].0 != block_id,
            decreases n - i,
        {
            if self.queue[i].0 == block_id {
                proof {
                    lemma_lookup_hit(self.slots(), self.dev().contents(), block_id as int, i as int);
                    assert(self.spec_ids()[i as int] == block_id);
                }
                return i;
            }
            i += 1;
        }
        proof {
            if ids0.contains(block_id) {
                let t = choose|t: int| 0 <= t < ids0.len() && ids0[t] == block_id;
                assert(self.queue@[t].0 == block_id);
            }
        }
        if self.queue.len() == CACHE_SIZE {
            let (victim_id, mut victim) = self.queue.swap_remove(0);
            let ghost q0 = old(self).slots();
            let ghost q1 = self.queue@;
            let ghost dev0 = old(self).dev().contents();
            assert(q0[0] == (victim_id, victim));
            victim.sync(&mut self.block_device);
            proof {
                let dev1 = self.dev().contents();
                lemma_lookup_hit(q0, dev0, victim_id as int, 0);
                assert(ids0[0] == victim_id);
                assert(dev1 =~= dev0.update(victim_id as int, view0[victim_id as int]));
                assert(self.spec_ids() =~= ids0.update(0, ids0.last()).drop_last());
                assert forall|k: int| 0 <= k < q1.len() implies {
                    &&& 0 <= (if k == 0 { q0.len() - 1 } else { k }) < q0.len()
                    &&& (if k == 0 { q0.len() - 1 } else { k }) != 0
                    &&& #[trigger] q1[k] == q0[if k == 0 { q0.len() - 1 } else { k }]
                } by {}
                assert(spec_distinct_slots(q1)) by {
                    assert forall|a: int, b: int| 0 <= a < b < q1.len() implies q1[a].0 != q1[b].0 by {
                        let ka = if a == 0 { q0.len() - 1 } else { a };
                        assert(q1[a] == q0[ka]);
                        assert(q1[b] == q0[b]);
                        if ka < b {
                            assert(q0[ka].0 != q0[b].0);
                        } else {
                            assert(q0[b].0 != q0[ka].0);
                        }
                    }
                }
                assert forall|k: int| 0 <= k < q1.len() implies (#[trigger] q1[k]).0 != victim_id by {
                    let kk = if k == 0 { q0.len() - 1 } else { k };
                    assert(q1[k] == q0[kk]);
                    assert(q0[0].0 != q0[kk].0);
                }
                assert(self.wf()) by {
                    assert forall|k: int| 0 <= k < q1.len() implies {
                        &&& (#[trigger] q1[k]).0 == q1[k].1.spec_block_id()
                        &&& q1[k].0 < dev1.len()
                        &&& q1[k].1@.len() == 512
                        &&& (!q1[k].1.spec_modified() ==> q1[k].1@ == dev1[q1[k].0 as int])
                    } by {
                        let kk = if k == 0 { q0.len() - 1 } else { k };
                        assert(q1[k] == q0[kk]);
                        assert(q0[kk].0 != victim_id);
                    }
                    assert forall|b: int| 0 <= b < dev1.len() implies (#[trigger] dev1[b]).len()
                        == 512 by {
                        assert(q0[0].1@.len() == 512);
                        assert(dev0[b].len() == 512);
                    }
                }
                assert(self@ =~= view0) by {
                    assert forall|b: int| 0 <= b < dev1.len() implies spec_lookup(q1, dev1, b)
                        == spec_lookup(q0, dev0, b) by {
                        if b == victim_id {
                            lemma_lookup_hit(q0, dev0, b, 0);
                            if q0[0].1.spec_modified() {
                            } else {
                            }
                        } else if exists|i: int| 0 <= i < q1.len() && q1[i].0 == b {
                            let i1 = choose|i: int| 0 <= i < q1.len() && q1[i].0 == b;
                            let kk = if i1 == 0 { q0.len() - 1 } else { i1 };
                            assert(q1[i1] == q0[kk]);
                            lemma_lookup_hit(q0, dev0, b, kk);
                        } else {
                            if exists|i: int| 0 <= i < q0.len() && q0[i].0 == b {
                                let i0 = choose|i: int| 0 <= i < q0.len() && q0[i].0 == b;
                                assert(i0 != 0);
                                let k1 = if i0 == q0.len() - 1 { 0 } else { i0 };
                                assert(q1[k1] == q0[i0]);
                                assert(false);
                            }
                        }
                    }
                }
            }
        }
        let ghost q1 = self.queue@;
        let ghost dev1 = self.dev().contents();
        proof {
            assert forall|k: int| 0 <= k < q1.len() implies (#[trigger] q1[k]).0 != block_id by {
                if q1.len() == old(self).slots().len() {
                    assert(q1[k] == old(self).slots()[k]);
                } else {
                    let q0 = old(self).slots();
                    let kk = if k == 0 { q0.len() - 1 } else { k };
                    assert(q1[k] == q0[kk]);
                }
            }
        }
        let ghost ids1 = self.spec_ids();
        let block_cache = Cache::new(block_id, &self.block_device);
        self.queue.push((block_id, block_cache));
        proof {
            let q2 = self.queue@;
            assert(self.spec_ids() =~= ids1.push(block_id));
            assert(q2[q1.len() as int] == (block_id, block_cache));
            assert forall|k: int| 0 <= k < q1.len() implies #[trigger] q2[k] == q1[k] by {}
            assert(spec_distinct_slots(q2));
            assert(self.wf());
            lemma_lookup_hit(q2, dev1, block_id as int, q1.len() as int);
            assert(self@ =~= view0) by {
                assert forall|b: int| 0 <= b < dev1.len() implies spec_lookup(q2, dev1, b)
                    == spec_lookup(q1, dev1, b) by {
                    if b == block_id {
                    } else if exists|i: int| 0 <= i < q1.len() && q1[i].0 == b {
                        let i1 = choose|i: int| 0 <= i < q1.len() && q1[i].0 == b;
                        assert(q2[i1] == q1[i1]);
                        lemma_lookup_hit(q2, dev1, b, i1);
                    } else {
                        if exists|i: int| 0 <= i < q2.len() && q2[i].0 == b {
                            let i2 = choose|i: int| 0 <= i < q2.len() && q2[i].0 == b;
                            assert(i2 < q1.len());
                            assert(q2[i2] == q1[i2]);
                            assert(false);
                        }
                    }
                }
            }
        }
        self.queue.len() - 1
    }

    /// The bytes of block `block_id`. Reading leaves a device that holds
    /// what the cache shows as it is.
    pub fn read_block(&mut self, block_id: u64) -> (data: [u8; 512])
        requires
            old(self).wf(),
            block_id < old(self)@.len(),
        ensures
            final(self).wf(),
            final(self)@ == old(self)@,
            data@ == old(self)@[block_id as int],
            old(self).is_clean() ==> final(self).is_clean(),
            final(self).spec_fetched(old(self), block_id),
    {
        let slot = self.get(block_id);
        proof {
            reveal(CacheManager::spec_fetched);
            if old(self).is_clean() {
                let ids = old(self).spec_ids();
                if !ids.contains(block_id) && ids.len() == CACHE_SIZE {
                    assert(self.dev().contents() =~= old(self).dev().contents());
                }
            }
        }
        *self.queue[slot].1.get_ref()
    }

    /// Replaces the bytes of block `block_id` by `data`.
    pub fn write_block(&mut self, block_id: u64, data: &[u8; 512])
        requires
            old(self).wf(),
            block_id < old(self)@.len(),
        ensures
            final(self).wf(),
            final(self)@ == old(self)@.update(block_id as int, data@),
            final(self).spec_fetched(old(self), block_id),
    {
        let slot = self.get(block_id);
        let ghost q = self.slots();
        let ghost dev = self.dev().contents();
        let ghost view1 = self@;
        let r = self.queue[slot].1.get_mut();
        *r = *data;
        proof {
            let p = self.slots();
            assert(p[slot as int].1@ == data@);
            assert forall|i: int| 0 <= i < q.len() implies (#[trigger] q[i]).0 == p[i].0 && (i
                != slot ==> p[i] == q[i]) by {}
            assert(self@ =~= view1.update(block_id as int, data@)) by {
                assert forall|b: int| 0 <= b < dev.len() implies spec_lookup(p, dev, b) == (if b
                    == block_id {
                    data@
                } else {
                    spec_lookup(q, dev, b)
                }) by {
                    lemma_lookup_same_ids(q, p, dev, dev, b);
                    lemma_lookup_same_ids(q, q, dev, dev, b);
                }
            }
            lemma_lookup_same_ids(q, p, dev, dev, 0);
            assert(self.spec_ids() =~= Seq::new(q.len(), |i: int| q[i].0));
            reveal(CacheManager::spec_fetched);
        }
    }

    /// The 64-bit word at byte `offset` of block `block_id`.
    pub fn read_word(&mut self, block_id: u64, offset: usize) -> (x: u64)
        requires
            old(self).wf(),
            block_id < old(self)@.len(),
            offset + 8 <= 512,
        ensures
            final(self).wf(),
            final(self)@ == old(self)@,
            x == spec_u64_at(old(self)@[block_id as int], offset as int),
            final(self).spec_fetched(old(self), block_id),
    {
        let slot = self.get(block_id);
        proof {
            reveal(CacheManager::spec_fetched);
        }
        self.queue[slot].1.read(offset)
    }

    /// Stores the 64-bit word `x` at byte `offset` of block `block_id`.
    pub fn write_word(&mut self, block_id: u64, offset: usize, x: u64)
        requires
            old(self).wf(),
            block_id < old(self)@.len(),
            offset + 8 <= 512,
        ensures
            final(self).wf(),
            final(self)@ == old(self)@.update(
                block_id as int,
                spec_put_u64(old(self)@[block_id as int], offset as int, x),
            ),
            final(self).spec_fetched(old(self), block_id),
    {
        let slot = self.get(block_id);
        let ghost q = self.slots();
        let ghost dev = self.dev().contents();
        let ghost view1 = self@;
        self.queue[slot].1.modify(offset, x);
        proof {
            let p = self.slots();
            let data = spec_put_u64(view1[block_id as int], offset as int, x);
            assert(p[slot as int].1@ == data);
            assert forall|i: int| 0 <= i < q.len() implies (#[trigger] q[i]).0 == p[i].0 && (i
                != slot ==> p[i] == q[i]) by {}
            assert(self@ =~= view1.update(block_id as int, data)) by {
                assert forall|b: int| 0 <= b < dev.len() implies spec_lookup(p, dev, b) == (if b
                    == block_id {
                    data
                } else {
                    spec_lookup(q, dev, b)
                }) by {
                    lemma_lookup_same_ids(q, p, dev, dev, b);
                    lemma_lookup_same_ids(q, q, dev, dev, b);
                }
            }
            lemma_lookup_same_ids(q, p, dev, dev, 0);
            assert(self.spec_ids() =~= Seq::new(q.len(), |i: int| q[i].0));
            reveal(CacheManager::spec_fetched);
        }
    }

    /// Writes every modified block back to the device, slot by slot. The
    /// slots keep their blocks, and none is modified afterwards.
    #[verifier::spinoff_prover]
    #[verifier::rlimit(40)]
    pub fn flush(&mut self)
        requires
            old(self).wf(),
        ensures
            final(self).wf(),
            final(self)@ == old(self)@,
            final(self).is_clean(),
            final(self).spec_ids() == old(self).spec_ids(),
            forall|i: int|
                0 <= i < final(self).slots().len() ==> !(#[trigger] final(self).slots()[i]).1.spec_modified(),
    {
        let ghost view0 = self@;
        let ghost ids0 = self.spec_ids();
        let n = self.queue.len();
        let mut i: usize = 0;
        while i < n
            invariant
                i <= n,
                n == self.queue@.len(),
                self.wf(),
                self@ == view0,
                self.spec_ids() == ids0,
                forall|j: int| 0 <= j < i ==> !(#[trigger] self.queue@[j]).1.spec_modified(),
            decreases n - i,
        {
            let ghost q = self.slots();
            let ghost dev = self.dev().contents();
            self.queue[i].1.sync(&mut self.block_device);
            proof {
                let p = self.slots();
                let pdev = self.dev().contents();
                assert forall|k: int| 0 <= k < q.len() implies (#[trigger] q[k]).0 == p[k].0 && (k
                    != i ==> p[k] == q[k]) by {}
                assert(p[i as int].1@ == q[i as int].1@);
                lemma_lookup_same_ids(q, p, dev, pdev, 0);
                assert(self.wf()) by {
                    assert forall|k: int| 0 <= k < p.len() implies {
                        &&& (#[trigger] p[k]).0 == p[k].1.spec_block_id()
                        &&& p[k].0 < pdev.len()
                        &&& p[k].1@.len() == 512
                        &&& (!p[k].1.spec_modified() ==> p[k].1@ == pdev[p[k].0 as int])
                    } by {
                        assert(q[k].0 == p[k].0);
                        if k != i {
                            assert(p[k] == q[k]);
                            if k < i {
                                assert(q[k].0 != q[i as int].0);
                            } else {
                                assert(q[i as int].0 != q[k].0);
                            }
                        }
                    }
                    assert forall|b: int| 0 <= b < pdev.len() implies (#[trigger] pdev[b]).len()
                        == 512 by {
                        assert(dev[b].len() == 512);
                        assert(q[i as int].1@.len() == 512);
                    }
                }
                assert(self@ =~= view0) by {
                    assert forall|b: int| 0 <= b < dev.len() implies spec_lookup(p, pdev, b)
                        == spec_lookup(q, dev, b) by {
                        lemma_lookup_same_ids(q, p, dev, pdev, b);
                        lemma_lookup_same_ids(q, q, dev, dev, b);
                        if forall|k: int| 0 <= k < q.len() ==> (#[trigger] q[k]).0 != b {
                            assert(q[i as int].0 != b);
                        } else {
                            let k = choose|k: int| 0 <= k < q.len() && !((#[trigger] q[k]).0 != b);
                            assert(p[k].1@ == q[k].1@);
                        }
                    }
                }
                assert forall|j: int| 0 <= j < i + 1 implies !(#[trigger] self.queue@[j]).1.spec_modified() by {
                    if j < i {
                        assert(p[j] == q[j]);
                    }
                }
                assert(self.spec_ids() =~= ids0) by {
                    assert forall|k: int| 0 <= k < q.len() implies p[k].0 == q[k].0 by {}
                }
            }
            i += 1;
        }
        proof {
            let q = self.slots();
            let dev = self.dev().contents();
            assert(self@ =~= dev) by {
                assert forall|b: int| 0 <= b < dev.len() implies spec_lookup(q, dev, b)
                    == dev[b] by {
                    if exists|k: int| 0 <= k < q.len() && q[k].0 == b {
                        let k = choose|k: int| 0 <= k < q.len() && q[k].0 == b;
                        assert(!q[k].1.spec_modified());
                    }
                }
            }
        }
    }

    /// The device behind the cache. Blocks that were modified and not yet
    /// flushed are missing from it.
    pub fn device(&self) -> (d: &D)
        ensures
            *d == self.dev(),
    {
        &self.block_device
    }

    /// Gives up the cache and hands out the device as it is.
    pub fn into_device(self) -> (d: D)
        ensures
            d == self.dev(),
    {
        self.block_device
    }
}

} // verus!
