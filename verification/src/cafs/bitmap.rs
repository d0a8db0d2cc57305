//! Allocation bitmaps stored in consecutive blocks.
//!
//! A bitmap of `blocks` blocks holds `blocks * BLOCK_BITS` bits. A block is
//! read as 64 little-endian 64-bit words; bit `i` of the bitmap is bit
//! `i % 64` of word `(i % BLOCK_BITS) / 64` of block `i / BLOCK_BITS`.
use super::cache::CacheManager;
use crate::bytes::{
    get_u64, lemma_get_put_u64, lemma_get_put_u64_other, spec_put_u64, spec_u64_at,
};
use crate::{blocks_wf, BlockDevice, BLOCK_BITS};
use vstd::prelude::*;
use vstd::std_specs::bits::axiom_u64_trailing_ones;

verus! {

/// A run of `blocks` bitmap blocks that starts at block `start_block_id`.
pub struct Bitmap {
    start_block_id: u64,
    blocks: u64,
}

/// The word of the bitmap at `start` that holds bit `bit`.
pub open spec fn spec_word_of(d: Seq<Seq<u8>>, start: int, bit: int) -> u64 {
    spec_u64_at(d[start + bit / 4096], ((bit % 4096) / 64) * 8)
}

/// Whether bit `bit` of the bitmap at `start` is set.
pub open spec fn spec_bit_set(d: Seq<Seq<u8>>, start: int, bit: int) -> bool {
    (spec_word_of(d, start, bit) >> ((bit % 64) as u64)) & 1 == 1
}

/// The number of clear bits among the first `n` bits of the bitmap at `start`.
pub open spec fn spec_count_clear(d: Seq<Seq<u8>>, start: int, n: nat) -> nat
    decreases n,
{
    if n == 0 {
        0
    } else {
        spec_count_clear(d, start, (n - 1) as nat) + if spec_bit_set(d, start, n - 1) {
            0nat
        } else {
            1nat
        }
    }
}

/// The number of set bits among the first `n` bits of the bitmap at `start`.
pub open spec fn spec_count_set(d: Seq<Seq<u8>>, start: int, n: nat) -> nat
    decreases n,
{
    if n == 0 {
        0
    } else {
        spec_count_set(d, start, (n - 1) as nat) + if spec_bit_set(d, start, n - 1) {
            1nat
        } else {
            0nat
        }
    }
}

/// Every bit is either set or clear: the two counts add up to the number
/// of bits.
pub proof fn lemma_counts_add_up(d: Seq<Seq<u8>>, start: int, n: nat)
    ensures
        spec_count_clear(d, start, n) + spec_count_set(d, start, n) == n,
    decreases n,
{
    if n > 0 {
        lemma_counts_add_up(d, start, (n - 1) as nat);
    }
}

/// The count of clear bits depends on the bits alone.
pub proof fn lemma_count_clear_same_bits(d: Seq<Seq<u8>>, e: Seq<Seq<u8>>, start: int, n: nat)
    requires
        forall|b: int| 0 <= b < n ==> spec_bit_set(d, start, b) == spec_bit_set(e, start, b),
    ensures
        spec_count_clear(d, start, n) == spec_count_clear(e, start, n),
    decreases n,
{
    if n > 0 {
        lemma_count_clear_same_bits(d, e, start, (n - 1) as nat);
    }
}

/// Changing one bit moves the count of clear bits by one.
pub proof fn lemma_count_clear_flip(
    d: Seq<Seq<u8>>,
    e: Seq<Seq<u8>>,
    start: int,
    n: nat,
    bit: int,
)
    requires
        forall|b: int|
            0 <= b < n && b != bit ==> spec_bit_set(d, start, b) == spec_bit_set(e, start, b),
        0 <= bit < n,
        spec_bit_set(d, start, bit) != spec_bit_set(e, start, bit),
    ensures
        spec_bit_set(e, start, bit) ==> spec_count_clear(e, start, n) + 1 == spec_count_clear(
            d,
            start,
            n,
        ),
        !spec_bit_set(e, start, bit) ==> spec_count_clear(e, start, n) == spec_count_clear(
            d,
            start,
            n,
        ) + 1,
    decreases n,
{
    if bit == n - 1 {
        lemma_count_clear_same_bits(d, e, start, (n - 1) as nat);
    } else {
        lemma_count_clear_flip(d, e, start, (n - 1) as nat, bit);
    }
}

/// When every bit is set, no bit is clear.
pub proof fn lemma_full_count(d: Seq<Seq<u8>>, start: int, n: nat)
    requires
        forall|b: int| 0 <= b < n ==> spec_bit_set(d, start, b),
    ensures
        spec_count_clear(d, start, n) == 0,
    decreases n,
{
    if n > 0 {
        lemma_full_count(d, start, (n - 1) as nat);
    }
}

/// When no bit is set, every bit is clear.
pub proof fn lemma_empty_count(d: Seq<Seq<u8>>, start: int, n: nat)
    requires
        forall|b: int| 0 <= b < n ==> !spec_bit_set(d, start, b),
    ensures
        spec_count_clear(d, start, n) == n,
    decreases n,
{
    if n > 0 {
        lemma_empty_count(d, start, (n - 1) as nat);
    }
}

/// The block, the word within the block and the bit within the word that
/// hold bit `bit`.
pub fn decompose(bit: u64) -> (pos: (u64, usize, u64))
    ensures
        pos.0 == bit / 4096,
        pos.1 == (bit % 4096) / 64,
        pos.2 == bit % 64,
{
    let block_pos = bit / BLOCK_BITS;
    let rest = bit % BLOCK_BITS;
    (block_pos, (rest / 64) as usize, rest % 64)
}

proof fn lemma_word_set_bit(w: u64, t: u64, j: u64)
    requires
        t < 64,
        j < 64,
    ensures
        ((w | (1u64 << t)) >> t) & 1 == 1,
        j != t ==> ((w | (1u64 << t)) >> j) & 1 == (w >> j) & 1,
{
    assert(((w | (1u64 << t)) >> t) & 1 == 1) by (bit_vector)
        requires
            t < 64,
    ;
    assert(j != t ==> ((w | (1u64 << t)) >> j) & 1 == (w >> j) & 1) by (bit_vector)
        requires
            t < 64,
            j < 64,
    ;
}

proof fn lemma_word_clear_bit(w: u64, t: u64, j: u64)
    requires
        t < 64,
        j < 64,
        (w >> t) & 1 == 1,
    ensures
        w & (1u64 << t) > 0,
        w >= (1u64 << t),
        (((w - (1u64 << t)) as u64) >> t) & 1 == 0,
        j != t ==> (((w - (1u64 << t)) as u64) >> j) & 1 == (w >> j) & 1,
{
    assert(w & (1u64 << t) > 0 && w >= (1u64 << t)) by (bit_vector)
        requires
            t < 64,
            (w >> t) & 1 == 1,
    ;
    assert((((w - (1u64 << t)) as u64) >> t) & 1 == 0) by (bit_vector)
        requires
            t < 64,
            (w >> t) & 1 == 1,
    ;
    assert(j != t ==> (((w - (1u64 << t)) as u64) >> j) & 1 == (w >> j) & 1) by (bit_vector)
        requires
            t < 64,
            j < 64,
            (w >> t) & 1 == 1,
    ;
}

proof fn lemma_full_word(j: u64)
    requires
        j < 64,
    ensures
        (0xffff_ffff_ffff_ffffu64 >> j) & 1 == 1,
{
    assert((0xffff_ffff_ffff_ffffu64 >> j) & 1 == 1) by (bit_vector)
        requires
            j < 64,
    ;
}

proof fn lemma_bit_is_zero_or_one(w: u64, j: u64)
    ensures
        (w >> j) & 1 == 0 || (w >> j) & 1 == 1,
{
    assert((w >> j) & 1 == 0 || (w >> j) & 1 == 1) by (bit_vector);
}

/// Replacing the word that holds `bit` changes no bit but those of that word.
proof fn lemma_word_update(d: Seq<Seq<u8>>, start: int, total: int, bit: int, w: u64)
    requires
        blocks_wf(d),
        0 <= start,
        0 <= bit < total,
        start + (total + 4095) / 4096 <= d.len(),
    ensures
        ({
            let blk = start + bit / 4096;
            let off = ((bit % 4096) / 64) * 8;
            let e = d.update(blk, spec_put_u64(d[blk], off, w));
            &&& blocks_wf(e)
            &&& forall|b: int|
                0 <= b < total ==> #[trigger] spec_word_of(e, start, b) == if b / 64 == bit / 64 {
                    w
                } else {
                    spec_word_of(d, start, b)
                }
        }),
{
    let blk = start + bit / 4096;
    let off = ((bit % 4096) / 64) * 8;
    let e = d.update(blk, spec_put_u64(d[blk], off, w));
    assert(d[blk].len() == 512);
    lemma_get_put_u64(d[blk], off, w);
    assert forall|i: int| 0 <= i < e.len() implies (#[trigger] e[i]).len() == 512 by {
        if i != blk {
            assert(d[i].len() == 512);
        }
    }
    assert forall|b: int| 0 <= b < total implies #[trigger] spec_word_of(e, start, b) == if b
        / 64 == bit / 64 {
        w
    } else {
        spec_word_of(d, start, b)
    } by {
        let bblk = start + b / 4096;
        let boff = ((b % 4096) / 64) * 8;
        if b / 64 == bit / 64 {
            assert(bblk == blk);
            assert(boff == off);
        } else if bblk == blk {
            assert(boff != off);
            lemma_get_put_u64_other(d[blk], off, w, boff);
        } else {
        }
    }
}

impl Bitmap {
    /// The first block of the bitmap.
    pub closed spec fn spec_start(&self) -> u64 {
        self.start_block_id
    }

    /// The number of blocks of the bitmap.
    pub closed spec fn spec_blocks(&self) -> u64 {
        self.blocks
    }

    /// The number of bits of the bitmap.
    pub open spec fn spec_total(&self) -> nat {
        (self.spec_blocks() * 4096) as nat
    }

    /// The bitmap lies within the blocks `d`, and its bits can be counted
    /// in 64 bits.
    pub open spec fn wf(&self, d: Seq<Seq<u8>>) -> bool {
        &&& blocks_wf(d)
        &&& self.spec_start() + self.spec_blocks() <= d.len()
        &&& self.spec_start() + self.spec_blocks() <= u64::MAX
        &&& self.spec_blocks() * 4096 <= u64::MAX
    }

    /// Whether bit `bit` is set in `d`.
    pub open spec fn spec_is_set(&self, d: Seq<Seq<u8>>, bit: int) -> bool {
        spec_bit_set(d, self.spec_start() as int, bit)
    }

    /// The number of clear bits in `d`.
    pub open spec fn spec_free(&self, d: Seq<Seq<u8>>) -> nat {
        spec_count_clear(d, self.spec_start() as int, self.spec_total())
    }

    /// `e` is `d` with bit `bit` changed and nothing else: no other bit of
    /// this bitmap, and no block outside it.
    pub open spec fn spec_flipped(&self, d: Seq<Seq<u8>>, e: Seq<Seq<u8>>, bit: int) -> bool {
        &&& e.len() == d.len()
        &&& blocks_wf(e)
        &&& self.spec_is_set(e, bit) != self.spec_is_set(d, bit)
        &&& forall|b: int|
            0 <= b < self.spec_total() && b != bit ==> self.spec_is_set(e, b) == self.spec_is_set(
                d,
                b,
            )
        &&& forall|i: int|
            0 <= i < d.len() && i != self.spec_start() + bit / 4096 ==> e[i] == d[i]
    }

    /// What a flipped bit means for the bits and the blocks one by one.
    pub proof fn lemma_flipped(&self, d: Seq<Seq<u8>>, e: Seq<Seq<u8>>, bit: int)
        requires
            self.spec_flipped(d, e, bit),
        ensures
            e.len() == d.len(),
            blocks_wf(e),
            spec_bit_set(e, self.spec_start() as int, bit) != spec_bit_set(
                d,
                self.spec_start() as int,
                bit,
            ),
            forall|b: int|
                0 <= b < self.spec_total() && b != bit ==> spec_bit_set(
                    e,
                    self.spec_start() as int,
                    b,
                ) == spec_bit_set(d, self.spec_start() as int, b),
            forall|i: int| 0 <= i < d.len() && i != self.spec_start() + bit / 4096 ==> e[i] == d[i],
    {
        assert forall|b: int| 0 <= b < self.spec_total() && b != bit implies spec_bit_set(
            e,
            self.spec_start() as int,
            b,
        ) == spec_bit_set(d, self.spec_start() as int, b) by {
            assert(self.spec_is_set(e, b) == self.spec_is_set(d, b));
        }
    }

    /// When every bit is set, no bit is free.
    pub proof fn lemma_full(&self, d: Seq<Seq<u8>>)
        requires
            forall|b: int| 0 <= b < self.spec_total() ==> self.spec_is_set(d, b),
        ensures
            self.spec_free(d) == 0,
    {
        assert forall|b: int| 0 <= b < self.spec_total() implies spec_bit_set(
            d,
            self.spec_start() as int,
            b,
        ) by {
            assert(self.spec_is_set(d, b));
        }
        lemma_full_count(d, self.spec_start() as int, self.spec_total());
    }

    /// A bit that was set and then handed out again must have been
    /// cleared in between: as long as no bit is cleared, the bits handed
    /// out are all different.
    pub proof fn lemma_not_twice(&self, d0: Seq<Seq<u8>>, d1: Seq<Seq<u8>>, first: int, second: int)
        requires
            0 <= first < self.spec_total(),
            0 <= second < self.spec_total(),
            self.spec_is_set(d0, first),
            forall|b: int|
                0 <= b < self.spec_total() && self.spec_is_set(d0, b) ==> self.spec_is_set(d1, b),
            !self.spec_is_set(d1, second),
        ensures
            first != second,
    {
    }

    /// Every bit is free or in use: the free bits and the bits in use add
    /// up to the bits of the bitmap.
    pub proof fn lemma_free_and_used(&self, d: Seq<Seq<u8>>)
        ensures
            self.spec_free(d) + spec_count_set(d, self.spec_start() as int, self.spec_total())
                == self.spec_total(),
    {
        lemma_counts_add_up(d, self.spec_start() as int, self.spec_total());
    }

    /// A bitmap of `blocks` blocks from block `start_block_id` on.
    pub fn new(start_block_id: u64, blocks: u64) -> (bitmap: Self)
        ensures
            bitmap.spec_start() == start_block_id,
            bitmap.spec_blocks() == blocks,
    {
        Self { start_block_id, blocks }
    }

    /// The first block of the bitmap.
    pub fn start_block_id(&self) -> (r: u64)
        ensures
            r == self.spec_start(),
    {
        self.start_block_id
    }

    /// The number of blocks of the bitmap.
    pub fn blocks(&self) -> (r: u64)
        ensures
            r == self.spec_blocks(),
    {
        self.blocks
    }

    /// The number of bits of the bitmap.
    pub fn total_count(&self) -> (n: u64)
        requires
            self.spec_blocks() * 4096 <= u64::MAX,
        ensures
            n == self.spec_total(),
    {
        self.blocks * BLOCK_BITS
    }

    /// The number of clear bits.
    #[verifier::rlimit(40)]
    pub fn free_count<D: BlockDevice>(&self, cache: &mut CacheManager<D>) -> (count: u64)
        requires
            old(cache).wf(),
            self.wf(old(cache)@),
        ensures
            final(cache).wf(),
            final(cache)@ == old(cache)@,
            count == self.spec_free(old(cache)@),
    {
        let ghost d = cache@;
        let ghost start = self.start_block_id as int;
        let mut count: u64 = 0;
        let mut block_id: u64 = 0;
        while block_id < self.blocks
            invariant
                block_id <= self.blocks,
                cache.wf(),
                cache@ == d,
                self.wf(d),
                start == self.start_block_id,
                count == spec_count_clear(d, start, (block_id * 4096) as nat),
                count <= block_id * 4096,
            decreases self.blocks - block_id,
        {
            let blk = cache.read_block(block_id + self.start_block_id);
            let mut w: usize = 0;
            while w < 64
                invariant
                    w <= 64,
                    block_id < self.blocks,
                    self.wf(d),
                    start == self.start_block_id,
                    blk@ == d[start + block_id],
                    count == spec_count_clear(d, start, (block_id * 4096 + w * 64) as nat),
                    count <= block_id * 4096 + w * 64,
                decreases 64 - w,
            {
                let word = get_u64(&blk, w * 8);
                let mut i: u64 = 0;
                while i < 64
                    invariant
                        i <= 64,
                        w < 64,
                        block_id < self.blocks,
                        self.wf(d),
                        start == self.start_block_id,
                        blk@ == d[start + block_id],
                        word == spec_u64_at(blk@, w * 8),
                        count == spec_count_clear(
                            d,
                            start,
                            (block_id * 4096 + w * 64 + i) as nat,
                        ),
                        count <= block_id * 4096 + w * 64 + i,
                    decreases 64 - i,
                {
                    let ghost g = block_id * 4096 + w * 64 + i;
                    proof {
                        assert(g / 4096 == block_id as int);
                        assert((g % 4096) / 64 == w as int);
                        assert(g % 64 == i as int);
                        assert(spec_word_of(d, start, g) == word);
                        lemma_bit_is_zero_or_one(word, i);
                    }
                    if (word >> i) & 1 == 0 {
                        count += 1;
                    }
                    i += 1;
                }
                w += 1;
            }
            block_id += 1;
        }
        count
    }

    /// Whether bit `bit` is set.
    #[verifier::rlimit(40)]
    pub fn get<D: BlockDevice>(&self, cache: &mut CacheManager<D>, bit: u64) -> (r: bool)
        requires
            old(cache).wf(),
            self.wf(old(cache)@),
            bit < self.spec_total(),
        ensures
            final(cache).wf(),
            final(cache)@ == old(cache)@,
            r == self.spec_is_set(old(cache)@, bit as int),
    {
        let (block_pos, bits64_pos, inner_pos) = decompose(bit);
        let word = cache.read_word(block_pos + self.start_block_id, bits64_pos * 8);
        proof {
            lemma_bit_is_zero_or_one(word, inner_pos);
        }
        (word >> inner_pos) & 1 == 1
    }

    /// Sets the lowest clear bit and returns its index, or returns `None`
    /// when every bit is set.
    #[verifier::rlimit(40)]
    pub fn allocate<D: BlockDevice>(&self, cache: &mut CacheManager<D>) -> (pos: Option<u64>)
        requires
            old(cache).wf(),
            self.wf(old(cache)@),
        ensures
            final(cache).wf(),
            match pos {
                Some(bit) => {
                    &&& bit < self.spec_total()
                    &&& !self.spec_is_set(old(cache)@, bit as int)
                    &&& forall|b: int| 0 <= b < bit ==> self.spec_is_set(old(cache)@, b)
                    &&& self.spec_flipped(old(cache)@, final(cache)@, bit as int)
                },
                None => {
                    &&& final(cache)@ == old(cache)@
                    &&& forall|b: int| 0 <= b < self.spec_total() ==> self.spec_is_set(old(cache)@, b)
                },
            },
    {
        let ghost d = cache@;
        let ghost start = self.start_block_id as int;
        let mut block_id: u64 = 0;
        while block_id < self.blocks
            invariant
                block_id <= self.blocks,
                cache.wf(),
                cache@ == d,
                d == old(cache)@,
                self.wf(d),
                start == self.start_block_id,
                forall|b: int| 0 <= b < block_id * 4096 ==> spec_bit_set(d, start, b),
            decreases self.blocks - block_id,
        {
            let blk = cache.read_block(block_id + self.start_block_id);
            let mut w: usize = 0;
            while w < 64
                invariant
                    w <= 64,
                    block_id < self.blocks,
                    cache.wf(),
                    cache@ == d,
                    d == old(cache)@,
                    self.wf(d),
                    start == self.start_block_id,
                    blk@ == d[start + block_id],
                    forall|b: int| 0 <= b < block_id * 4096 + w * 64 ==> spec_bit_set(d, start, b),
                decreases 64 - w,
            {
                let word = get_u64(&blk, w * 8);
                let ghost base = block_id * 4096 + w * 64;
                if word != u64::MAX {
                    let inner_pos = word.trailing_ones() as u64;
                    proof {
                        axiom_u64_trailing_ones(word);
                        assert(inner_pos < 64);
                    }
                    let bit = block_id * BLOCK_BITS + ((w as u64) * 64 + inner_pos);
                    proof {
                        assert(bit / 4096 == block_id as int);
                        assert((bit % 4096) / 64 == w as int);
                        assert(bit % 64 == inner_pos as int);
                        assert(spec_word_of(d, start, bit as int) == word);
                        assert forall|b: int| 0 <= b < bit implies spec_bit_set(d, start, b) by {
                            if b >= base {
                                let j = (b - base) as u64;
                                assert(b / 4096 == block_id as int);
                                assert((b % 4096) / 64 == w as int);
                                assert(b % 64 == j as int);
                                assert(spec_word_of(d, start, b) == word);
                                assert((word >> j) & 1 == 1);
                            }
                        }
                        lemma_word_update(
                            d,
                            start,
                            self.spec_total() as int,
                            bit as int,
                            word | (1u64 << inner_pos),
                        );
                    }
                    cache.write_word(
                        block_id + self.start_block_id,
                        w * 8,
                        word | (1u64 << inner_pos),
                    );
                    proof {
                        let e = cache@;
                        let nw = word | (1u64 << inner_pos);
                        assert(e.len() == d.len());
                        assert(spec_word_of(e, start, bit as int) == nw);
                        lemma_word_set_bit(word, inner_pos, inner_pos);
                        assert forall|b: int|
                            0 <= b < self.spec_total() && b != bit implies self.spec_is_set(e, b)
                            == self.spec_is_set(d, b) by {
                            if b / 64 == bit / 64 {
                                let j = (b % 64) as u64;
                                assert(spec_word_of(e, start, b) == nw);
                                assert(spec_word_of(d, start, b) == word);
                                assert(j != inner_pos);
                                lemma_word_set_bit(word, inner_pos, j);
                            } else {
                                assert(spec_word_of(e, start, b) == spec_word_of(d, start, b));
                            }
                        }
                        assert(self.spec_is_set(e, bit as int));
                    }
                    return Some(bit);
                }
                proof {
                    assert forall|b: int| 0 <= b < base + 64 implies spec_bit_set(d, start, b) by {
                        if b >= base {
                            let j = (b - base) as u64;
                            assert(b / 4096 == block_id as int);
                            assert((b % 4096) / 64 == w as int);
                            assert(b % 64 == j as int);
                            assert(spec_word_of(d, start, b) == word);
                            lemma_full_word(j);
                        }
                    }
                }
                w += 1;
            }
            block_id += 1;
        }
        None
    }

    /// Clears bit `bit`, which must be set.
    #[verifier::rlimit(40)]
    pub fn dealloc<D: BlockDevice>(&self, cache: &mut CacheManager<D>, bit: u64)
        requires
            old(cache).wf(),
            self.wf(old(cache)@),
            bit < self.spec_total(),
            self.spec_is_set(old(cache)@, bit as int),
        ensures
            final(cache).wf(),
            !self.spec_is_set(final(cache)@, bit as int),
            self.spec_flipped(old(cache)@, final(cache)@, bit as int),
    {
        let ghost d = cache@;
        let ghost start = self.start_block_id as int;
        let (block_pos, bits64_pos, inner_pos) = decompose(bit);
        let word = cache.read_word(block_pos + self.start_block_id, bits64_pos * 8);
        proof {
            assert(spec_word_of(d, start, bit as int) == word);
            lemma_word_clear_bit(word, inner_pos, inner_pos);
            lemma_word_update(
                d,
                start,
                self.spec_total() as int,
                bit as int,
                (word - (1u64 << inner_pos)) as u64,
            );
        }
        cache.write_word(block_pos + self.start_block_id, bits64_pos * 8, word - (1u64 << inner_pos));
        proof {
            let e = cache@;
            let nw = (word - (1u64 << inner_pos)) as u64;
            assert(spec_word_of(e, start, bit as int) == nw);
            assert forall|b: int|
                0 <= b < self.spec_total() && b != bit implies self.spec_is_set(e, b)
                == self.spec_is_set(d, b) by {
                if b / 64 == bit / 64 {
                    let j = (b % 64) as u64;
                    assert(spec_word_of(e, start, b) == nw);
                    assert(spec_word_of(d, start, b) == word);
                    assert(j != inner_pos);
                    lemma_word_clear_bit(word, inner_pos, j);
                } else {
                    assert(spec_word_of(e, start, b) == spec_word_of(d, start, b));
                }
            }
        }
    }
}

} // verus!
