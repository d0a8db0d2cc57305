//! The block index of a file: 36 direct entries in the inode record and,
//! beyond them, a tree of indirect blocks of at most four levels.
//!
//! The tree is described by position. The root is the only block of the
//! top level; block `j` of level `k` holds in its entries the ids of the
//! blocks `63 * j .. 63 * j + 63` of level `k - 1`, and level 0 is the data
//! blocks past the direct ones. Every statement about lookups, traversal
//! and layout is made over this description.
use super::cache::CacheManager;
use super::layout::{
    spec_ceil_div, spec_data_blocks, spec_entries, spec_index_blocks, spec_level_tag,
    IndirectBlock, IndirectBlockType, LevelInfo, Meta, MetaView, BLOCK_DIRECTORY_MAX,
    BLOCK_TABLE_MAX, DIRECT_MAX, L3_MAX, L4_MAX,
};
use crate::bytes::spec_u64_at;
use crate::{blocks_wf, BlockDevice};
use vstd::prelude::*;
use vstd::relations::{sorted_by, total_ordering};
use vstd::seq_lib::lemma_sorted_unique;

verus! {

/// Entry `c` of the indirect block stored in block `id`.
pub open spec fn spec_entry(d: Seq<Seq<u8>>, id: u64, c: int) -> u64 {
    spec_u64_at(d[id as int], 8 * c)
}

/// The number of data blocks below one block of level `k`: 63 to the power `k`.
pub open spec fn spec_span(k: nat) -> int {
    if k == 0 {
        1
    } else if k == 1 {
        63
    } else if k == 2 {
        3969
    } else if k == 3 {
        250047
    } else {
        15752961
    }
}

/// The number of levels of the indirect tree of a file of `size` bytes.
pub open spec fn spec_height(size: u64) -> nat {
    if size > L3_MAX {
        4
    } else if size > BLOCK_DIRECTORY_MAX {
        3
    } else if size > BLOCK_TABLE_MAX {
        2
    } else if size > DIRECT_MAX {
        1
    } else {
        0
    }
}

/// The number of data blocks past the direct ones.
pub open spec fn spec_rest(size: u64) -> int {
    if size > DIRECT_MAX {
        spec_data_blocks(size) - 36
    } else {
        0
    }
}

/// The number of blocks of level `k` in the tree of a file of `size`
/// bytes; for level 0, the number of data blocks past the direct ones.
pub open spec fn spec_level_count(size: u64, k: nat) -> int {
    if k > spec_height(size) {
        0
    } else {
        spec_ceil_div(spec_rest(size), spec_span(k))
    }
}

/// The id of block `j` of level `k`, read from the blocks `d` by going
/// down from the root, which is the block of level `h`.
pub open spec fn spec_level_id(d: Seq<Seq<u8>>, root: u64, h: nat, k: nat, j: int) -> u64
    decreases h - k,
{
    if k >= h {
        root
    } else {
        spec_entry(d, spec_level_id(d, root, h, k + 1, j / 63), j % 63)
    }
}

/// Block `j` of level `k` is a valid block of the device, carries the tag
/// of its level, and has zero in every entry past the last block of the
/// level below.
pub open spec fn spec_node_wf(d: Seq<Seq<u8>>, root: u64, size: u64, k: nat, j: int) -> bool {
    let id = spec_level_id(d, root, spec_height(size), k, j);
    &&& id != 0
    &&& id < d.len()
    &&& spec_level_tag(d[id as int]) == k - 1
    &&& forall|c: int|
        0 <= c < 63 && 63 * j + c >= spec_level_count(size, (k - 1) as nat) ==> #[trigger] spec_entry(
            d,
            id,
            c,
        ) == 0
}

/// The blocks `d` hold a well-formed tree for a file of `size` bytes whose
/// record points to `root`: every index block is well-formed, no block is
/// used twice as an index block, and every data block id is non-zero.
pub open spec fn spec_tree_wf(d: Seq<Seq<u8>>, root: u64, size: u64) -> bool {
    let h = spec_height(size);
    &&& size <= L4_MAX
    &&& (h == 0 ==> root == 0)
    &&& forall|k: nat, j: int|
        1 <= k <= h && 0 <= j < spec_level_count(size, k) ==> #[trigger] spec_node_wf(
            d,
            root,
            size,
            k,
            j,
        )
    &&& forall|p: int|
        0 <= p < spec_rest(size) ==> #[trigger] spec_level_id(d, root, h, 0, p) != 0
    &&& spec_index_ids(d, root, size).no_duplicates()
}

/// The ids of the blocks of level `k`, in order.
pub open spec fn spec_level_ids(d: Seq<Seq<u8>>, root: u64, size: u64, k: nat) -> Seq<u64> {
    Seq::new(
        spec_level_count(size, k) as nat,
        |j: int| spec_level_id(d, root, spec_height(size), k, j),
    )
}

/// The ids of all index blocks: level 4 first, then levels 3, 2 and 1.
pub open spec fn spec_index_ids(d: Seq<Seq<u8>>, root: u64, size: u64) -> Seq<u64> {
    spec_level_ids(d, root, size, 4) + spec_level_ids(d, root, size, 3) + spec_level_ids(
        d,
        root,
        size,
        2,
    ) + spec_level_ids(d, root, size, 1)
}

/// The id of data block `i` of the file.
pub open spec fn spec_block_id(d: Seq<Seq<u8>>, m: MetaView, i: int) -> u64 {
    if i < 36 {
        m.direct[i]
    } else {
        spec_level_id(d, m.indirect, spec_height(m.size), 0, i - 36)
    }
}

/// The ids of the data blocks of the file, in file order.
pub open spec fn spec_data_ids(d: Seq<Seq<u8>>, m: MetaView) -> Seq<u64> {
    Seq::new(spec_data_blocks(m.size) as nat, |i: int| spec_block_id(d, m, i))
}

/// The record `m` and the blocks `d` together hold a well-formed file:
/// exactly the direct entries that the size calls for are in use, and the
/// indirect tree is well-formed.
pub open spec fn spec_meta_wf(d: Seq<Seq<u8>>, m: MetaView) -> bool {
    &&& blocks_wf(d)
    &&& m.direct.len() == 36
    &&& forall|i: int| 0 <= i < 36 ==> (#[trigger] m.direct[i] != 0 <==> i < spec_data_blocks(m.size))
    &&& spec_tree_wf(d, m.indirect, m.size)
}

/// Ascending order.
pub open spec fn spec_leq() -> spec_fn(u64, u64) -> bool {
    |a: u64, b: u64| a <= b
}

/// `s` in ascending order.
pub open spec fn spec_sort(s: Seq<u64>) -> Seq<u64> {
    s.sort_by(spec_leq())
}

/// The level counts of a file are those of its layout descriptor, the top
/// level has one block, and each level has one block for every 63 blocks
/// of the level below.
pub proof fn lemma_level_counts(size: u64)
    requires
        size <= L4_MAX,
    ensures
        spec_index_blocks(size).l4 == spec_level_count(size, 4),
        spec_index_blocks(size).l3 == spec_level_count(size, 3),
        spec_index_blocks(size).block_directory == spec_level_count(size, 2),
        spec_index_blocks(size).block_table == spec_level_count(size, 1),
        spec_index_blocks(size).direct == if spec_data_blocks(size) < 36 {
            spec_data_blocks(size)
        } else {
            36
        },
        spec_level_count(size, 0) == spec_rest(size),
        0 <= spec_rest(size) <= spec_span(spec_height(size)),
        spec_height(size) >= 1 ==> spec_level_count(size, spec_height(size)) == 1,
        spec_height(size) >= 1 ==> spec_rest(size) >= 1,
        spec_height(size) >= 2 ==> spec_rest(size) > spec_span((spec_height(size) - 1) as nat),
        spec_height(size) == 0 ==> spec_rest(size) == 0,
        1 <= spec_height(size) ==> spec_level_count(size, 1) == spec_ceil_div(
            spec_level_count(size, 0),
            63,
        ),
        2 <= spec_height(size) ==> spec_level_count(size, 2) == spec_ceil_div(
            spec_level_count(size, 1),
            63,
        ),
        3 <= spec_height(size) ==> spec_level_count(size, 3) == spec_ceil_div(
            spec_level_count(size, 2),
            63,
        ),
        4 <= spec_height(size) ==> spec_level_count(size, 4) == spec_ceil_div(
            spec_level_count(size, 3),
            63,
        ),
        forall|k: nat| 0 <= #[trigger] spec_level_count(size, k) <= spec_rest(size),
        spec_index_blocks(size).spec_index_block_count() == spec_level_count(size, 4)
            + spec_level_count(size, 3) + spec_level_count(size, 2) + spec_level_count(size, 1),
{
    let n = spec_data_blocks(size);
    let r = spec_rest(size);
    assert(n == (size + 511) / 512);
    if size > DIRECT_MAX {
        let bytes = size - DIRECT_MAX;
        assert(r == (bytes + 511) / 512);
        assert((bytes + 32255) / 32256 == (r + 62) / 63);
        assert((bytes + 2032127) / 2032128 == (r + 3968) / 3969);
        assert((bytes + 128024063) / 128024064 == (r + 250046) / 250047);
        assert((r + 15752960) / 15752961 == 1);
        assert((r + 3968) / 3969 == ((r + 62) / 63 + 62) / 63);
        assert((r + 250046) / 250047 == ((r + 3968) / 3969 + 62) / 63);
        assert((r + 15752960) / 15752961 == ((r + 250046) / 250047 + 62) / 63);
    }
    assert forall|k: nat| 0 <= #[trigger] spec_level_count(size, k) <= spec_rest(size) by {
        if k == 0 {
        } else if k == 1 {
        } else if k == 2 {
        } else if k == 3 {
        } else {
        }
    }
}

/// `s` is in ascending order.
pub open spec fn spec_ascending(s: Seq<u64>) -> bool {
    forall|i: int, j: int| 0 <= i < j < s.len() ==> s[i] <= s[j]
}

/// Merges two ascending lists of ids into one.
fn merge_ids(a: &Vec<u64>, b: &Vec<u64>) -> (r: Vec<u64>)
    requires
        spec_ascending(a@),
        spec_ascending(b@),
    ensures
        spec_ascending(r@),
        r@.to_multiset() == a@.to_multiset().add(b@.to_multiset()),
{
    let mut r: Vec<u64> = Vec::new();
    let n = a.len();
    let m = b.len();
    let mut i: usize = 0;
    let mut j: usize = 0;
    proof {
        assert(a@.subrange(0, 0) =~= Seq::<u64>::empty());
        assert(b@.subrange(0, 0) =~= Seq::<u64>::empty());
        Seq::<u64>::empty().to_multiset_ensures();
        assert(r@.to_multiset() =~= a@.subrange(0, 0).to_multiset().add(
            b@.subrange(0, 0).to_multiset(),
        ));
    }
    while i < n || j < m
        invariant
            i <= n,
            j <= m,
            n == a@.len(),
            m == b@.len(),
            spec_ascending(a@),
            spec_ascending(b@),
            spec_ascending(r@),
            r@.len() == i + j,
            r@.to_multiset() == a@.subrange(0, i as int).to_multiset().add(
                b@.subrange(0, j as int).to_multiset(),
            ),
            forall|t: int| 0 <= t < r@.len() && i < n ==> r@[t] <= a@[i as int],
            forall|t: int| 0 <= t < r@.len() && j < m ==> r@[t] <= b@[j as int],
        decreases (n - i) + (m - j),
    {
        let ghost before = r@;
        if j >= m || (i < n && a[i] <= b[j]) {
            let x = a[i];
            r.push(x);
            proof {
                let head = a@.subrange(0, i as int);
                assert(a@.subrange(0, i + 1) =~= head.push(x));
                head.to_multiset_ensures();
                before.to_multiset_ensures();
                assert(r@.to_multiset() =~= a@.subrange(0, i + 1).to_multiset().add(
                    b@.subrange(0, j as int).to_multiset(),
                ));
                assert forall|s: int, t: int| 0 <= s < t < r@.len() implies r@[s] <= r@[t] by {
                    if t < before.len() {
                        assert(before[s] <= before[t]);
                    }
                }
            }
            i += 1;
        } else {
            let x = b[j];
            r.push(x);
            proof {
                let head = b@.subrange(0, j as int);
                assert(b@.subrange(0, j + 1) =~= head.push(x));
                head.to_multiset_ensures();
                before.to_multiset_ensures();
                assert(r@.to_multiset() =~= a@.subrange(0, i as int).to_multiset().add(
                    b@.subrange(0, j + 1).to_multiset(),
                ));
                assert forall|s: int, t: int| 0 <= s < t < r@.len() implies r@[s] <= r@[t] by {
                    if t < before.len() {
                        assert(before[s] <= before[t]);
                    }
                }
            }
            j += 1;
        }
    }
    proof {
        assert(a@.subrange(0, n as int) =~= a@);
        assert(b@.subrange(0, m as int) =~= b@);
    }
    r
}

/// The ids `v[from .. to]` in ascending order.
fn sorted_ids(v: &Vec<u64>, from: usize, to: usize) -> (r: Vec<u64>)
    requires
        from <= to <= v@.len(),
    ensures
        spec_ascending(r@),
        r@.to_multiset() == v@.subrange(from as int, to as int).to_multiset(),
    decreases to - from,
{
    let ghost part = v@.subrange(from as int, to as int);
    if to - from <= 1 {
        let mut r: Vec<u64> = Vec::new();
        if to - from == 1 {
            r.push(v[from]);
        }
        assert(r@ =~= part);
        r
    } else {
        let mid = from + (to - from) / 2;
        let left = sorted_ids(v, from, mid);
        let right = sorted_ids(v, mid, to);
        proof {
            let a = v@.subrange(from as int, mid as int);
            let b = v@.subrange(mid as int, to as int);
            assert(part =~= a + b);
            vstd::seq_lib::lemma_multiset_commutative(a, b);
        }
        merge_ids(&left, &right)
    }
}

/// Sorts `v` in ascending order.
fn sort_ids(v: &mut Vec<u64>)
    ensures
        spec_ascending(final(v)@),
        final(v)@.to_multiset() == old(v)@.to_multiset(),
{
    let sorted = sorted_ids(v, 0, v.len());
    proof {
        assert(v@.subrange(0, v@.len() as int) =~= v@);
    }
    *v = sorted;
}

/// There is one ascending arrangement of a collection of ids.
pub proof fn lemma_sort_unique(a: Seq<u64>, s: Seq<u64>)
    requires
        spec_ascending(s),
        s.to_multiset() == a.to_multiset(),
    ensures
        s == spec_sort(a),
        spec_ascending(spec_sort(a)),
        spec_sort(a).to_multiset() == a.to_multiset(),
        spec_sort(a).len() == a.len(),
{
    let leq = spec_leq();
    assert(total_ordering(leq)) by {
        assert(vstd::relations::reflexive(leq));
        assert(vstd::relations::antisymmetric(leq));
        assert(vstd::relations::transitive(leq));
        assert(vstd::relations::strongly_connected(leq));
    }
    a.lemma_sort_by_ensures(leq);
    assert(sorted_by(s, leq));
    lemma_sorted_unique(s, spec_sort(a), leq);
    vstd::seq_lib::to_multiset_len(a);
    vstd::seq_lib::to_multiset_len(spec_sort(a));
}

/// The ids of the index blocks above level `k`: level 4 first.
pub open spec fn spec_index_above(d: Seq<Seq<u8>>, root: u64, size: u64, k: nat) -> Seq<u64> {
    (if k < 4 {
        spec_level_ids(d, root, size, 4)
    } else {
        Seq::empty()
    }) + (if k < 3 {
        spec_level_ids(d, root, size, 3)
    } else {
        Seq::empty()
    }) + (if k < 2 {
        spec_level_ids(d, root, size, 2)
    } else {
        Seq::empty()
    }) + (if k < 1 {
        spec_level_ids(d, root, size, 1)
    } else {
        Seq::empty()
    })
}

/// The entries in use of the blocks `ids`, which are the blocks of level
/// `k`: the ids of the blocks of the level below, in order.
#[verifier::spinoff_prover]
#[verifier::rlimit(40)]
fn gather<D: BlockDevice>(
    cache: &mut CacheManager<D>,
    ids: &Vec<u64>,
    Ghost(root): Ghost<u64>,
    Ghost(size): Ghost<u64>,
    Ghost(k): Ghost<nat>,
) -> (next: Vec<u64>)
    requires
        old(cache).wf(),
        spec_tree_wf(old(cache)@, root, size),
        1 <= k <= spec_height(size),
        ids@ == spec_level_ids(old(cache)@, root, size, k),
    ensures
        final(cache).wf(),
        final(cache)@ == old(cache)@,
        next@ == spec_level_ids(old(cache)@, root, size, (k - 1) as nat),
{
    let ghost d = cache@;
    let ghost h = spec_height(size);
    let ghost below = (k - 1) as nat;
    let ghost cnt = spec_level_count(size, below);
    proof {
        lemma_level_counts(size);
    }
    let mut next: Vec<u64> = Vec::new();
    let n = ids.len();
    let mut j: usize = 0;
    while j < n
        invariant
            j <= n,
            n == ids@.len(),
            cache.wf(),
            cache@ == d,
            spec_tree_wf(d, root, size),
            h == spec_height(size),
            1 <= k <= h,
            below == k - 1,
            cnt == spec_level_count(size, below),
            0 <= cnt <= 15752961,
            ids@ == spec_level_ids(d, root, size, k),
            next@ == Seq::new(
                (if 63 * j < cnt {
                    63 * j
                } else {
                    cnt
                }) as nat,
                |p: int| spec_level_id(d, root, h, below, p),
            ),
        decreases n - j,
    {
        let id = ids[j];
        proof {
            assert(id == spec_level_id(d, root, h, k, j as int));
            assert(spec_node_wf(d, root, size, k, j as int));
        }
        let blk = match IndirectBlock::load(cache, id) {
            Some(b) => b,
            None => {
                assert(false);
                vstd::pervasive::unreached()
            },
        };
        let mut c: usize = 0;
        while c < 63
            invariant
                c <= 63,
                j < n,
                n == ids@.len(),
                spec_tree_wf(d, root, size),
                h == spec_height(size),
                1 <= k <= h,
                below == k - 1,
                cnt == spec_level_count(size, below),
                0 <= cnt <= 15752961,
                ids@ == spec_level_ids(d, root, size, k),
                id == spec_level_id(d, root, h, k, j as int),
                blk.entries@ == spec_entries(d[id as int]),
                spec_node_wf(d, root, size, k, j as int),
                next@ == Seq::new(
                    (if 63 * j + c < cnt {
                        63 * j + c
                    } else {
                        cnt
                    }) as nat,
                    |p: int| spec_level_id(d, root, h, below, p),
                ),
            decreases 63 - c,
        {
            let e = blk.entries[c];
            let ghost p = 63 * j + c;
            proof {
                assert(p / 63 == j as int && p % 63 == c as int);
                assert(e == spec_entry(d, id, c as int));
                assert(spec_level_id(d, root, h, below, p) == e);
                if p < cnt {
                    if below >= 1 {
                        assert(spec_node_wf(d, root, size, below, p));
                    } else {
                        assert(spec_level_id(d, root, h, 0, p) != 0);
                    }
                    assert(e != 0);
                } else {
                    assert(e == 0);
                }
            }
            if e != 0 {
                let ghost before = next@;
                next.push(e);
                assert(next@ =~= Seq::new((p + 1) as nat, |p: int| spec_level_id(d, root, h, below, p)));
            }
            c += 1;
        }
        j += 1;
    }
    proof {
        assert(n == spec_level_count(size, k));
        assert(cnt <= 63 * n);
        assert(next@ =~= spec_level_ids(d, root, size, below));
    }
    next
}

/// `e` is `d` but for the blocks `ids`: as many blocks, and every block
/// that is not among `ids` as it was.
pub open spec fn spec_unchanged_outside(d: Seq<Seq<u8>>, e: Seq<Seq<u8>>, ids: Seq<u64>) -> bool {
    &&& e.len() == d.len()
    &&& forall|b: int| 0 <= b < d.len() && !ids.contains(b as u64) ==> #[trigger] e[b] == d[b]
}

/// Entry `c` of the block that holds chunk `j` of `list`: the id at
/// position `63 * j + c`, or zero past the end of the list.
pub open spec fn spec_chunk_entry(list: Seq<u64>, j: int, c: int) -> u64 {
    if 63 * j + c < list.len() {
        list[63 * j + c]
    } else {
        0
    }
}

/// Block `id` of `d` is an indirect block with level tag `tag` whose
/// entries are chunk `j` of `next`.
pub open spec fn spec_block_written(d: Seq<Seq<u8>>, id: u64, tag: u64, next: Seq<u64>, j: int) -> bool {
    &&& id < d.len()
    &&& spec_level_tag(d[id as int]) == tag
    &&& forall|c: int| 0 <= c < 63 ==> #[trigger] spec_entry(d, id, c) == spec_chunk_entry(next, j, c)
}

/// The blocks `ids` of `d` are the blocks of one level, with level tag
/// `tag`, and hold the ids `next` of the level below, 63 to a block.
pub open spec fn spec_level_written(d: Seq<Seq<u8>>, ids: Seq<u64>, tag: u64, next: Seq<u64>) -> bool {
    forall|j: int| 0 <= j < ids.len() ==> #[trigger] spec_block_written(d, ids[j], tag, next, j)
}

/// Writes the blocks `ids[start .. start + count]` as the blocks of one
/// level: each gets the level tag of `type_` and the next 63 ids of
/// `next[nstart .. nstart + ncount]`, zero where the ids have run out.
#[verifier::spinoff_prover]
#[verifier::rlimit(40)]
fn write_level<D: BlockDevice>(
    cache: &mut CacheManager<D>,
    ids: &Vec<u64>,
    start: usize,
    count: usize,
    type_: IndirectBlockType,
    next: &Vec<u64>,
    nstart: usize,
    ncount: usize,
)
    requires
        old(cache).wf(),
        start + count <= ids@.len(),
        nstart + ncount <= next@.len(),
        63 * count <= usize::MAX,
        forall|j: int| start <= j < start + count ==> ids@[j] < old(cache)@.len(),
        forall|a: int, b: int| start <= a < b < start + count ==> ids@[a] != ids@[b],
    ensures
        final(cache).wf(),
        spec_unchanged_outside(
            old(cache)@,
            final(cache)@,
            ids@.subrange(start as int, start + count),
        ),
        spec_level_written(
            final(cache)@,
            ids@.subrange(start as int, start + count),
            type_.spec_tag(),
            next@.subrange(nstart as int, nstart + ncount),
        ),
{
    let ghost d0 = cache@;
    let ids_len = ids.len();
    let next_len = next.len();
    let ghost my = ids@.subrange(start as int, start + count);
    let ghost nx = next@.subrange(nstart as int, nstart + ncount);
    let mut j: usize = 0;
    while j < count
        invariant
            j <= count,
            cache.wf(),
            cache@.len() == d0.len(),
            start + count <= ids@.len(),
            nstart + ncount <= next@.len(),
            ids_len == ids@.len(),
            next_len == next@.len(),
            63 * count <= usize::MAX,
            my == ids@.subrange(start as int, start + count),
            nx == next@.subrange(nstart as int, nstart + ncount),
            forall|t: int| start <= t < start + count ==> ids@[t] < d0.len(),
            forall|a: int, b: int| start <= a < b < start + count ==> ids@[a] != ids@[b],
            forall|b: int|
                0 <= b < d0.len() && (forall|t: int| start <= t < start + j ==> ids@[t] != b)
                    ==> cache@[b] == d0[b],
            forall|t: int|
                0 <= t < j ==> #[trigger] spec_block_written(cache@, my[t], type_.spec_tag(), nx, t),
        decreases count - j,
    {
        let mut entries = [0u64; 63];
        let mut c: usize = 0;
        while c < 63
            invariant
                c <= 63,
                j < count,
                63 * count <= usize::MAX,
                nstart + ncount <= next@.len(),
                next_len == next@.len(),
                nx == next@.subrange(nstart as int, nstart + ncount),
                forall|t: int| 0 <= t < c ==> entries@[t] == spec_chunk_entry(nx, j as int, t),
                forall|t: int| c <= t < 63 ==> entries@[t] == 0,
            decreases 63 - c,
        {
            let p = 63 * j + c;
            if p < ncount {
                entries[c] = next[nstart + p];
            }
            c += 1;
        }
        let blk = IndirectBlock { entries, type_ };
        let bytes = blk.encode();
        let id = ids[start + j];
        let ghost before = cache@;
        cache.write_block(id, &bytes);
        proof {
            let after = cache@;
            assert(my[j as int] == id);
            assert(spec_block_written(after, id, type_.spec_tag(), nx, j as int)) by {
                assert forall|c: int| 0 <= c < 63 implies #[trigger] spec_entry(after, id, c)
                    == spec_chunk_entry(nx, j as int, c) by {
                    assert(spec_entries(bytes@)[c] == entries@[c]);
                }
            }
            assert forall|t: int| 0 <= t < j implies #[trigger] spec_block_written(
                after,
                my[t],
                type_.spec_tag(),
                nx,
                t,
            ) by {
                assert(spec_block_written(before, my[t], type_.spec_tag(), nx, t));
                assert(my[t] == ids@[start + t]);
                assert(ids@[start + t] != ids@[start + j]);
                assert(after[my[t] as int] == before[my[t] as int]);
                assert forall|c: int| 0 <= c < 63 implies #[trigger] spec_entry(after, my[t], c)
                    == spec_chunk_entry(nx, t, c) by {
                    assert(spec_entry(before, my[t], c) == spec_chunk_entry(nx, t, c));
                }
            }
            assert forall|b: int|
                0 <= b < d0.len() && (forall|t: int| start <= t < start + j + 1 ==> ids@[t] != b)
                    implies after[b] == d0[b] by {
                assert(ids@[start + j] != b);
                assert(forall|t: int| start <= t < start + j ==> ids@[t] != b);
            }
        }
        j += 1;
    }
    proof {
        assert forall|b: int| 0 <= b < d0.len() && !my.contains(b as u64) implies #[trigger] cache@[b]
            == d0[b] by {
            assert forall|t: int| start <= t < start + count implies ids@[t] != b by {
                if ids@[t] == b {
                    assert(my[t - start] == b as u64);
                }
            }
        }
    }
}

/// The lists `ls[1] ..= ls[h]` are the levels of a tree of height `h`
/// written to `d`: each level has one block for every 63 ids of the list
/// below and holds those ids.
pub open spec fn spec_lists_written(d: Seq<Seq<u8>>, ls: Seq<Seq<u64>>, h: nat) -> bool {
    &&& ls.len() == 5
    &&& (1 <= h ==> spec_list_written(d, ls, 1))
    &&& (2 <= h ==> spec_list_written(d, ls, 2))
    &&& (3 <= h ==> spec_list_written(d, ls, 3))
    &&& (4 <= h ==> spec_list_written(d, ls, 4))
}

/// The list `ls[k]` is a level written to `d` that holds the ids of the
/// list `ls[k - 1]`.
pub open spec fn spec_list_written(d: Seq<Seq<u8>>, ls: Seq<Seq<u64>>, k: int) -> bool {
    &&& ls[k].len() == spec_ceil_div(ls[k - 1].len() as int, 63)
    &&& spec_level_written(d, ls[k], (k - 1) as u64, ls[k - 1])
}

/// The blocks of each level hold the ids of the level below, so going
/// down from the root by position finds the listed ids.
proof fn lemma_read_back(d: Seq<Seq<u8>>, root: u64, h: nat, ls: Seq<Seq<u64>>, k: nat, j: int)
    requires
        1 <= h <= 4,
        ls.len() == 5,
        ls[h as int] == seq![root],
        spec_lists_written(d, ls, h),
        k <= h,
        0 <= j < ls[k as int].len(),
    ensures
        spec_level_id(d, root, h, k, j) == ls[k as int][j],
    decreases h - k,
{
    if k >= h {
    } else {
        let up = (k + 1) as int;
        assert(spec_list_written(d, ls, up)) by {
            if up == 1 {
            } else if up == 2 {
            } else if up == 3 {
            } else {
            }
        }
        assert(j / 63 < ls[up].len());
        lemma_read_back(d, root, h, ls, (k + 1) as nat, j / 63);
        assert(spec_block_written(d, ls[up][j / 63], k as u64, ls[k as int], j / 63));
        assert(spec_entry(d, ls[up][j / 63], j % 63) == spec_chunk_entry(ls[k as int], j / 63, j % 63));
    }
}

/// What `forward` takes to lay out a file of `size` bytes on the blocks
/// `d`: as many index and data ids as the size calls for, none of them
/// zero, and the index ids all different and all blocks of the device.
pub open spec fn spec_layout_input(d: Seq<Seq<u8>>, size: u64, index: Seq<u64>, data: Seq<u64>) -> bool {
    &&& size <= L4_MAX
    &&& index.len() == spec_index_blocks(size).spec_index_block_count()
    &&& data.len() == spec_data_blocks(size)
    &&& forall|i: int| 0 <= i < data.len() ==> #[trigger] data[i] != 0
    &&& forall|i: int| 0 <= i < index.len() ==> #[trigger] index[i] != 0 && index[i] < d.len()
    &&& index.no_duplicates()
}

/// Where the ids of level `k` start in the list of index ids.
pub open spec fn spec_level_start(size: u64, k: nat) -> int {
    if k >= 4 {
        0
    } else if k == 3 {
        spec_level_count(size, 4)
    } else if k == 2 {
        spec_level_count(size, 4) + spec_level_count(size, 3)
    } else {
        spec_level_count(size, 4) + spec_level_count(size, 3) + spec_level_count(size, 2)
    }
}

/// The list of ids of each level, cut from the index ids and the data ids
/// of a file: at 0 the data ids past the direct ones, at `k` the ids of
/// level `k`.
pub open spec fn spec_lists(size: u64, index: Seq<u64>, data: Seq<u64>) -> Seq<Seq<u64>> {
    seq![
        data.subrange(36, data.len() as int),
        index.subrange(spec_level_start(size, 1), spec_level_start(size, 1) + spec_level_count(size, 1)),
        index.subrange(spec_level_start(size, 2), spec_level_start(size, 2) + spec_level_count(size, 2)),
        index.subrange(spec_level_start(size, 3), spec_level_start(size, 3) + spec_level_count(size, 3)),
        index.subrange(spec_level_start(size, 4), spec_level_start(size, 4) + spec_level_count(size, 4)),
    ]
}

/// A level that was written stays written when its blocks stay as they are.
proof fn lemma_written_frame(d: Seq<Seq<u8>>, e: Seq<Seq<u8>>, ids: Seq<u64>, tag: u64, next: Seq<u64>)
    requires
        spec_level_written(d, ids, tag, next),
        e.len() == d.len(),
        forall|j: int| 0 <= j < ids.len() ==> e[(#[trigger] ids[j]) as int] == d[ids[j] as int],
    ensures
        spec_level_written(e, ids, tag, next),
{
    assert forall|j: int| 0 <= j < ids.len() implies #[trigger] spec_block_written(
        e,
        ids[j],
        tag,
        next,
        j,
    ) by {
        assert(spec_block_written(d, ids[j], tag, next, j));
        assert forall|c: int| 0 <= c < 63 implies #[trigger] spec_entry(e, ids[j], c)
            == spec_chunk_entry(next, j, c) by {
            assert(spec_entry(d, ids[j], c) == spec_chunk_entry(next, j, c));
        }
    }
}

/// Going down by position through levels that were written from the
/// lists of a file finds the ids of the lists.
proof fn lemma_lists_read(d: Seq<Seq<u8>>, size: u64, index: Seq<u64>, data: Seq<u64>)
    requires
        size > DIRECT_MAX,
        spec_layout_input(d, size, index, data),
        spec_lists_written(d, spec_lists(size, index, data), spec_height(size)),
    ensures
        forall|k: nat, j: int|
            k <= spec_height(size) && 0 <= j < spec_level_count(size, k) ==> #[trigger] spec_level_id(
                d,
                index[0],
                spec_height(size),
                k,
                j,
            ) == spec_lists(size, index, data)[k as int][j],
{
    lemma_level_counts(size);
    let h = spec_height(size);
    let root = index[0];
    let ls = spec_lists(size, index, data);
    assert(ls[h as int] =~= seq![root]);
    assert forall|k: nat, j: int|
        k <= h && 0 <= j < spec_level_count(size, k) implies #[trigger] spec_level_id(
        d,
        root,
        h,
        k,
        j,
    ) == ls[k as int][j] by {
        lemma_read_back(d, root, h, ls, k, j);
    }
}

/// The ids found level by level are the index ids that were given.
proof fn lemma_lists_are_index(d: Seq<Seq<u8>>, size: u64, index: Seq<u64>, data: Seq<u64>)
    requires
        size > DIRECT_MAX,
        spec_layout_input(d, size, index, data),
        forall|k: nat, j: int|
            k <= spec_height(size) && 0 <= j < spec_level_count(size, k) ==> #[trigger] spec_level_id(
                d,
                index[0],
                spec_height(size),
                k,
                j,
            ) == spec_lists(size, index, data)[k as int][j],
    ensures
        spec_index_ids(d, index[0], size) == index,
{
    lemma_level_counts(size);
    let h = spec_height(size);
    let root = index[0];
    let ls = spec_lists(size, index, data);
    assert(spec_level_ids(d, root, size, 4) =~= ls[4]) by {
        assert forall|j: int| 0 <= j < spec_level_count(size, 4) implies spec_level_ids(
            d,
            root,
            size,
            4,
        )[j] == ls[4][j] by {
            assert(spec_level_id(d, root, h, 4, j) == ls[4][j]);
        }
    }
    assert(spec_level_ids(d, root, size, 3) =~= ls[3]) by {
        assert forall|j: int| 0 <= j < spec_level_count(size, 3) implies spec_level_ids(
            d,
            root,
            size,
            3,
        )[j] == ls[3][j] by {
            assert(spec_level_id(d, root, h, 3, j) == ls[3][j]);
        }
    }
    assert(spec_level_ids(d, root, size, 2) =~= ls[2]) by {
        assert forall|j: int| 0 <= j < spec_level_count(size, 2) implies spec_level_ids(
            d,
            root,
            size,
            2,
        )[j] == ls[2][j] by {
            assert(spec_level_id(d, root, h, 2, j) == ls[2][j]);
        }
    }
    assert(spec_level_ids(d, root, size, 1) =~= ls[1]) by {
        assert forall|j: int| 0 <= j < spec_level_count(size, 1) implies spec_level_ids(
            d,
            root,
            size,
            1,
        )[j] == ls[1][j] by {
            assert(spec_level_id(d, root, h, 1, j) == ls[1][j]);
        }
    }
    assert(spec_index_ids(d, root, size) =~= index);
}

/// Blocks written level by level from the given ids form a well-formed
/// tree whose index ids and data ids are the given ones.
#[verifier::spinoff_prover]
#[verifier::rlimit(40)]
proof fn lemma_laid_out(d: Seq<Seq<u8>>, size: u64, index: Seq<u64>, data: Seq<u64>)
    requires
        size > DIRECT_MAX,
        spec_layout_input(d, size, index, data),
        spec_lists_written(d, spec_lists(size, index, data), spec_height(size)),
    ensures
        spec_tree_wf(d, index[0], size),
        spec_index_ids(d, index[0], size) == index,
        forall|p: int|
            0 <= p < spec_rest(size) ==> #[trigger] spec_level_id(
                d,
                index[0],
                spec_height(size),
                0,
                p,
            ) == data[36 + p],
{
    lemma_level_counts(size);
    lemma_lists_read(d, size, index, data);
    lemma_lists_are_index(d, size, index, data);
    let h = spec_height(size);
    let root = index[0];
    let ls = spec_lists(size, index, data);
    assert forall|p: int| 0 <= p < spec_rest(size) implies #[trigger] spec_level_id(
        d,
        root,
        h,
        0,
        p,
    ) == data[36 + p] by {
        assert(spec_level_id(d, root, h, 0, p) == ls[0][p]);
    }
    assert forall|k: nat, j: int|
        1 <= k <= h && 0 <= j < spec_level_count(size, k) implies #[trigger] spec_node_wf(
        d,
        root,
        size,
        k,
        j,
    ) by {
        lemma_node_laid_out(d, size, index, data, k, j);
    }
}

/// A block written as block `j` of level `k` is a well-formed node.
proof fn lemma_node_laid_out(
    d: Seq<Seq<u8>>,
    size: u64,
    index: Seq<u64>,
    data: Seq<u64>,
    k: nat,
    j: int,
)
    requires
        size > DIRECT_MAX,
        spec_layout_input(d, size, index, data),
        spec_lists_written(d, spec_lists(size, index, data), spec_height(size)),
        1 <= k <= spec_height(size),
        0 <= j < spec_level_count(size, k),
        spec_level_id(d, index[0], spec_height(size), k, j) == spec_lists(size, index, data)[k as int][j],
    ensures
        spec_node_wf(d, index[0], size, k, j),
{
    lemma_level_counts(size);
    let h = spec_height(size);
    let root = index[0];
    let ls = spec_lists(size, index, data);
    let id = spec_level_id(d, root, h, k, j);
    assert(id == index[spec_level_start(size, k) + j]);
    assert(spec_list_written(d, ls, k as int)) by {
        if k == 1 {
        } else if k == 2 {
        } else if k == 3 {
        } else {
        }
    }
    assert(spec_block_written(d, ls[k as int][j], (k - 1) as u64, ls[k - 1], j));
    assert forall|c: int|
        0 <= c < 63 && 63 * j + c >= spec_level_count(
            size,
            (k - 1) as nat,
        ) implies #[trigger] spec_entry(d, id, c) == 0 by {
        assert(spec_entry(d, id, c) == spec_chunk_entry(ls[k - 1], j, c));
    }
}

/// A smaller file has no more data blocks and no more index blocks.
pub proof fn lemma_counts_monotone(a: u64, b: u64)
    requires
        a <= b <= L4_MAX,
    ensures
        spec_data_blocks(a) <= spec_data_blocks(b),
        spec_index_blocks(a).spec_index_block_count() <= spec_index_blocks(
            b,
        ).spec_index_block_count(),
        0 <= spec_index_blocks(a).spec_index_block_count(),
        spec_index_blocks(b).spec_index_block_count() <= 4 * 15752961,
        0 <= spec_data_blocks(a),
        spec_data_blocks(b) <= 36 + 15752961,
{
    lemma_level_counts(a);
    lemma_level_counts(b);
    let ra = spec_rest(a);
    let rb = spec_rest(b);
    assert(spec_data_blocks(a) <= spec_data_blocks(b));
    assert(ra <= rb);
    assert((ra + 62) / 63 <= (rb + 62) / 63);
    assert((ra + 3968) / 3969 <= (rb + 3968) / 3969);
    assert((ra + 250046) / 250047 <= (rb + 250046) / 250047);
    assert((ra + 15752960) / 15752961 <= (rb + 15752960) / 15752961);
    assert(spec_height(a) <= spec_height(b));
}

/// Every index id of a well-formed tree is a non-zero block of the device.
pub proof fn lemma_index_ids_valid(d: Seq<Seq<u8>>, root: u64, size: u64)
    requires
        spec_tree_wf(d, root, size),
    ensures
        spec_index_ids(d, root, size).len() == spec_index_blocks(size).spec_index_block_count(),
        forall|i: int|
            0 <= i < spec_index_ids(d, root, size).len() ==> (#[trigger] spec_index_ids(
                d,
                root,
                size,
            )[i]) != 0 && spec_index_ids(d, root, size)[i] < d.len(),
{
    lemma_level_counts(size);
    let ids = spec_index_ids(d, root, size);
    let h = spec_height(size);
    let n4 = spec_level_count(size, 4);
    let n3 = spec_level_count(size, 3);
    let n2 = spec_level_count(size, 2);
    let n1 = spec_level_count(size, 1);
    assert forall|i: int| 0 <= i < ids.len() implies (#[trigger] ids[i]) != 0 && ids[i]
        < d.len() by {
        if i < n4 {
            assert(spec_node_wf(d, root, size, 4, i));
        } else if i < n4 + n3 {
            assert(spec_node_wf(d, root, size, 3, i - n4));
        } else if i < n4 + n3 + n2 {
            assert(spec_node_wf(d, root, size, 2, i - n4 - n3));
        } else {
            assert(spec_node_wf(d, root, size, 1, i - n4 - n3 - n2));
        }
    }
}

/// The index ids in ascending order are still all different, non-zero
/// blocks of the device, and they are the same ids.
pub proof fn lemma_sorted_index(d: Seq<Seq<u8>>, root: u64, size: u64)
    requires
        spec_tree_wf(d, root, size),
    ensures
        spec_sort(spec_index_ids(d, root, size)).len() == spec_index_blocks(
            size,
        ).spec_index_block_count(),
        spec_sort(spec_index_ids(d, root, size)).no_duplicates(),
        spec_ascending(spec_sort(spec_index_ids(d, root, size))),
        forall|x: u64|
            spec_sort(spec_index_ids(d, root, size)).contains(x) <==> spec_index_ids(
                d,
                root,
                size,
            ).contains(x),
        forall|i: int|
            0 <= i < spec_sort(spec_index_ids(d, root, size)).len() ==> (#[trigger] spec_sort(
                spec_index_ids(d, root, size),
            )[i]) != 0 && spec_sort(spec_index_ids(d, root, size))[i] < d.len(),
{
    let ids = spec_index_ids(d, root, size);
    let s = spec_sort(ids);
    lemma_index_ids_valid(d, root, size);
    lemma_sort_facts(ids);
    assert forall|i: int| 0 <= i < s.len() implies (#[trigger] s[i]) != 0 && s[i] < d.len() by {
        assert(s.contains(s[i]));
        assert(ids.contains(s[i]));
        let t = choose|t: int| 0 <= t < ids.len() && ids[t] == s[i];
        assert(ids[t] != 0);
    }
}

/// Sorting keeps the ids and their number, and ids that were all
/// different stay so.
pub proof fn lemma_sort_facts(a: Seq<u64>)
    ensures
        spec_sort(a).len() == a.len(),
        spec_ascending(spec_sort(a)),
        spec_sort(a).to_multiset() == a.to_multiset(),
        forall|x: u64| spec_sort(a).contains(x) <==> a.contains(x),
        a.no_duplicates() ==> spec_sort(a).no_duplicates(),
{
    let leq = spec_leq();
    let s = spec_sort(a);
    assert(total_ordering(leq)) by {
        assert(vstd::relations::reflexive(leq));
        assert(vstd::relations::antisymmetric(leq));
        assert(vstd::relations::transitive(leq));
        assert(vstd::relations::strongly_connected(leq));
    }
    a.lemma_sort_by_ensures(leq);
    vstd::seq_lib::to_multiset_len(a);
    vstd::seq_lib::to_multiset_len(s);
    assert(spec_ascending(s)) by {
        assert forall|i: int, j: int| 0 <= i < j < s.len() implies s[i] <= s[j] by {
            assert(leq(s[i], s[j]));
        }
    }
    a.to_multiset_ensures();
    s.to_multiset_ensures();
    assert forall|x: u64| s.contains(x) <==> a.contains(x) by {
        assert(s.contains(x) <==> s.to_multiset().count(x) > 0);
        assert(a.contains(x) <==> a.to_multiset().count(x) > 0);
    }
    if a.no_duplicates() {
        a.lemma_multiset_has_no_duplicates();
        s.lemma_multiset_has_no_duplicates_conv();
    }
}

/// Two lists that hold the same ids, each as often, have the same
/// length and the same members, and if one has no id twice then neither
/// has the other.
pub proof fn lemma_same_ids(a: Seq<u64>, b: Seq<u64>)
    requires
        a.to_multiset() == b.to_multiset(),
    ensures
        a.len() == b.len(),
        forall|x: u64| a.contains(x) <==> b.contains(x),
        a.no_duplicates() ==> b.no_duplicates(),
{
    a.to_multiset_ensures();
    b.to_multiset_ensures();
    assert forall|x: u64| a.contains(x) <==> b.contains(x) by {
        assert(a.contains(x) <==> a.to_multiset().count(x) > 0);
        assert(b.contains(x) <==> b.to_multiset().count(x) > 0);
    }
    if a.no_duplicates() {
        a.lemma_multiset_has_no_duplicates();
        b.lemma_multiset_has_no_duplicates_conv();
    }
}

/// Cutting the sorted index ids and the data ids each in two and putting
/// the heads before the tails rearranges the index ids and the data ids.
pub proof fn lemma_cut_rearranges(idx: Seq<u64>, dat: Seq<u64>, ni: int, nd: int)
    requires
        0 <= ni <= idx.len(),
        0 <= nd <= dat.len(),
    ensures
        spec_sort(idx).len() == idx.len(),
        ((spec_sort(idx).subrange(0, ni) + dat.subrange(0, nd)) + (spec_sort(idx).subrange(
            ni,
            idx.len() as int,
        ) + dat.subrange(nd, dat.len() as int))).to_multiset() == (idx + dat).to_multiset(),
{
    lemma_sort_facts(idx);
    let s = spec_sort(idx);
    let sa = s.subrange(0, ni);
    let sb = s.subrange(ni, s.len() as int);
    let da = dat.subrange(0, nd);
    let db = dat.subrange(nd, dat.len() as int);
    assert(s =~= sa + sb);
    assert(dat =~= da + db);
    vstd::seq_lib::lemma_multiset_commutative(sa, sb);
    vstd::seq_lib::lemma_multiset_commutative(da, db);
    vstd::seq_lib::lemma_multiset_commutative(sa, da);
    vstd::seq_lib::lemma_multiset_commutative(sb, db);
    vstd::seq_lib::lemma_multiset_commutative(sa + da, sb + db);
    vstd::seq_lib::lemma_multiset_commutative(idx, dat);
    assert(((sa + da) + (sb + db)).to_multiset() =~= (idx + dat).to_multiset());
}

/// Sorting the index ids and adding new index ids and new data ids
/// rearranges the old ids and the new ones.
pub proof fn lemma_grown_rearranges(idx: Seq<u64>, dat: Seq<u64>, ei: Seq<u64>, ed: Seq<u64>)
    ensures
        ((spec_sort(idx) + ei) + (dat + ed)).to_multiset() == ((idx + dat) + (ed + ei)).to_multiset(),
{
    lemma_sort_facts(idx);
    let s = spec_sort(idx);
    vstd::seq_lib::lemma_multiset_commutative(s, ei);
    vstd::seq_lib::lemma_multiset_commutative(dat, ed);
    vstd::seq_lib::lemma_multiset_commutative(s + ei, dat + ed);
    vstd::seq_lib::lemma_multiset_commutative(idx, dat);
    vstd::seq_lib::lemma_multiset_commutative(ed, ei);
    vstd::seq_lib::lemma_multiset_commutative(idx + dat, ed + ei);
    assert(((s + ei) + (dat + ed)).to_multiset() =~= ((idx + dat) + (ed + ei)).to_multiset());
}

/// Two lists, each turned back to front, hold what the lists held: when
/// no id was there twice, none is there twice afterwards.
pub proof fn lemma_reversed_parts(a: Seq<u64>, b: Seq<u64>, ra: Seq<u64>, rb: Seq<u64>)
    requires
        (a + b).no_duplicates(),
        ra.len() == a.len(),
        rb.len() == b.len(),
        forall|t: int| 0 <= t < ra.len() ==> #[trigger] ra[t] == a[a.len() - 1 - t],
        forall|t: int| 0 <= t < rb.len() ==> #[trigger] rb[t] == b[b.len() - 1 - t],
    ensures
        (ra + rb).no_duplicates(),
        forall|u: int| 0 <= u < (ra + rb).len() ==> (a + b).contains(#[trigger] (ra + rb)[u]),
        forall|x: u64| (ra + rb).contains(x) <==> (a + b).contains(x),
{
    let cut = a + b;
    let all = ra + rb;
    assert forall|v: int| 0 <= v < cut.len() implies all.contains(#[trigger] cut[v]) by {
        if v < a.len() {
            assert(all[a.len() - 1 - v] == ra[a.len() - 1 - v]);
            assert(ra[a.len() - 1 - v] == a[v]);
        } else {
            let w = v - a.len();
            assert(all[a.len() + (b.len() - 1 - w)] == rb[b.len() - 1 - w]);
            assert(rb[b.len() - 1 - w] == b[w]);
        }
    }
    assert forall|u: int| 0 <= u < all.len() implies all[u] == cut[if u < a.len() {
        a.len() - 1 - u
    } else {
        a.len() + (b.len() - 1 - (u - a.len()))
    }] by {
        if u < a.len() {
            assert(all[u] == ra[u]);
        } else {
            assert(all[u] == rb[u - a.len()]);
        }
    }
    assert forall|u: int| 0 <= u < all.len() implies cut.contains(#[trigger] all[u]) by {
        let f = if u < a.len() {
            a.len() - 1 - u
        } else {
            a.len() + (b.len() - 1 - (u - a.len()))
        };
        assert(cut[f] == all[u]);
    }
    assert forall|u: int, v: int| 0 <= u < all.len() && 0 <= v < all.len() && u != v implies all[u]
        != all[v] by {
        let fu = if u < a.len() {
            a.len() - 1 - u
        } else {
            a.len() + (b.len() - 1 - (u - a.len()))
        };
        let fv = if v < a.len() {
            a.len() - 1 - v
        } else {
            a.len() + (b.len() - 1 - (v - a.len()))
        };
        assert(cut[fu] == all[u]);
        assert(cut[fv] == all[v]);
        assert(fu != fv);
    }
    assert forall|x: u64| (ra + rb).contains(x) <==> (a + b).contains(x) by {
        if all.contains(x) {
            let u = choose|u: int| 0 <= u < all.len() && all[u] == x;
            assert(cut.contains(all[u]));
        }
        if cut.contains(x) {
            let v = choose|v: int| 0 <= v < cut.len() && cut[v] == x;
            assert(all.contains(cut[v]));
        }
    }
}

/// The data blocks that a file takes in all, counting those that it
/// gives back as taken away, when its size goes through `sizes` in turn:
/// growing takes the data blocks that the larger size has more, shrinking
/// gives back those that the smaller size has fewer.
pub open spec fn spec_net_data(sizes: Seq<u64>) -> int
    decreases sizes.len(),
{
    if sizes.len() <= 1 {
        0
    } else {
        spec_net_data(sizes.drop_last()) + (spec_data_blocks(sizes.last()) - spec_data_blocks(
            sizes[sizes.len() - 2],
        ))
    }
}

/// The index blocks that a file takes in all, counting those that it
/// gives back as taken away, when its size goes through `sizes` in turn.
pub open spec fn spec_net_index(sizes: Seq<u64>) -> int
    decreases sizes.len(),
{
    if sizes.len() <= 1 {
        0
    } else {
        spec_net_index(sizes.drop_last()) + (spec_index_blocks(
            sizes.last(),
        ).spec_index_block_count() - spec_index_blocks(
            sizes[sizes.len() - 2],
        ).spec_index_block_count())
    }
}

/// However a file grows and shrinks, the blocks that it has taken in all
/// are the blocks that its last size has more than its first size had, of
/// data blocks and of index blocks alike.
pub proof fn lemma_net_blocks(sizes: Seq<u64>)
    requires
        sizes.len() >= 1,
    ensures
        spec_net_data(sizes) == spec_data_blocks(sizes.last()) - spec_data_blocks(sizes[0]),
        spec_net_index(sizes) == spec_index_blocks(sizes.last()).spec_index_block_count()
            - spec_index_blocks(sizes[0]).spec_index_block_count(),
    decreases sizes.len(),
{
    if sizes.len() > 1 {
        let head = sizes.drop_last();
        lemma_net_blocks(head);
        assert(head.last() == sizes[sizes.len() - 2]);
        assert(head[0] == sizes[0]);
    }
}

/// Every data id of a well-formed file is non-zero.
pub proof fn lemma_data_ids_nonzero(d: Seq<Seq<u8>>, m: MetaView)
    requires
        spec_meta_wf(d, m),
    ensures
        spec_data_ids(d, m).len() == spec_data_blocks(m.size),
        forall|i: int| 0 <= i < spec_data_ids(d, m).len() ==> #[trigger] spec_data_ids(d, m)[i] != 0,
{
    lemma_level_counts(m.size);
    let ids = spec_data_ids(d, m);
    assert forall|i: int| 0 <= i < ids.len() implies #[trigger] ids[i] != 0 by {
        if i < 36 {
            assert(m.direct[i] != 0);
        } else {
            assert(spec_level_id(d, m.indirect, spec_height(m.size), 0, i - 36) != 0);
        }
    }
}

/// Four levels written one after the other, each to its own blocks, are
/// all written in the end, and no block but theirs has changed.
#[verifier::spinoff_prover]
#[verifier::rlimit(40)]
proof fn lemma_levels_written(
    d0: Seq<Seq<u8>>,
    d1: Seq<Seq<u8>>,
    d2: Seq<Seq<u8>>,
    d3: Seq<Seq<u8>>,
    d4: Seq<Seq<u8>>,
    size: u64,
    index: Seq<u64>,
    data: Seq<u64>,
)
    requires
        size > DIRECT_MAX,
        spec_layout_input(d0, size, index, data),
        spec_unchanged_outside(d0, d1, spec_lists(size, index, data)[4]),
        spec_unchanged_outside(d1, d2, spec_lists(size, index, data)[3]),
        spec_unchanged_outside(d2, d3, spec_lists(size, index, data)[2]),
        spec_unchanged_outside(d3, d4, spec_lists(size, index, data)[1]),
        spec_level_written(d1, spec_lists(size, index, data)[4], 3, spec_lists(size, index, data)[3]),
        spec_level_written(d2, spec_lists(size, index, data)[3], 2, spec_lists(size, index, data)[2]),
        spec_level_written(d3, spec_lists(size, index, data)[2], 1, spec_lists(size, index, data)[1]),
        spec_level_written(d4, spec_lists(size, index, data)[1], 0, spec_lists(size, index, data)[0]),
    ensures
        spec_lists_written(d4, spec_lists(size, index, data), spec_height(size)),
        spec_unchanged_outside(d0, d4, index),
        spec_layout_input(d4, size, index, data),
{
    lemma_level_counts(size);
    let ls = spec_lists(size, index, data);
    let n4 = spec_level_count(size, 4);
    let n3 = spec_level_count(size, 3);
    let n2 = spec_level_count(size, 2);
    let n1 = spec_level_count(size, 1);
    assert forall|k: int, j: int| 1 <= k <= 4 && 0 <= j < ls[k].len() implies index.contains(
        #[trigger] ls[k][j],
    ) by {
        assert(ls[k][j] == index[spec_level_start(size, k as nat) + j]);
    }
    assert forall|k1: int, k2: int, j: int|
        1 <= k1 <= 4 && 1 <= k2 <= 4 && k1 != k2 && 0 <= j < ls[k1].len() implies !(#[trigger] ls[k2].contains(
        ls[k1][j],
    )) by {
        if ls[k2].contains(ls[k1][j]) {
            let t = choose|t: int| 0 <= t < ls[k2].len() && ls[k2][t] == ls[k1][j];
            assert(ls[k1][j] == index[spec_level_start(size, k1 as nat) + j]);
            assert(ls[k2][t] == index[spec_level_start(size, k2 as nat) + t]);
        }
    }
    assert forall|j: int| 0 <= j < ls[4].len() implies d4[(#[trigger] ls[4][j]) as int]
        == d1[ls[4][j] as int] by {
        let b = ls[4][j];
        assert(!ls[3].contains(b) && !ls[2].contains(b) && !ls[1].contains(b));
        assert(d2[b as int] == d1[b as int]);
        assert(d3[b as int] == d2[b as int]);
        assert(d4[b as int] == d3[b as int]);
    }
    lemma_written_frame(d1, d4, ls[4], 3, ls[3]);
    assert forall|j: int| 0 <= j < ls[3].len() implies d4[(#[trigger] ls[3][j]) as int]
        == d2[ls[3][j] as int] by {
        let b = ls[3][j];
        assert(!ls[2].contains(b) && !ls[1].contains(b));
        assert(d3[b as int] == d2[b as int]);
        assert(d4[b as int] == d3[b as int]);
    }
    lemma_written_frame(d2, d4, ls[3], 2, ls[2]);
    assert forall|j: int| 0 <= j < ls[2].len() implies d4[(#[trigger] ls[2][j]) as int]
        == d3[ls[2][j] as int] by {
        let b = ls[2][j];
        assert(!ls[1].contains(b));
        assert(d4[b as int] == d3[b as int]);
    }
    lemma_written_frame(d3, d4, ls[2], 1, ls[1]);
    assert forall|b: int| 0 <= b < d0.len() && !index.contains(b as u64) implies #[trigger] d4[b]
        == d0[b] by {
        assert forall|k: int| 1 <= k <= 4 implies !(#[trigger] ls[k]).contains(b as u64) by {
            if ls[k].contains(b as u64) {
                let t = choose|t: int| 0 <= t < ls[k].len() && ls[k][t] == b as u64;
                assert(index.contains(ls[k][t]));
            }
        }
        assert(!ls[4].contains(b as u64));
        assert(!ls[3].contains(b as u64));
        assert(!ls[2].contains(b as u64));
        assert(!ls[1].contains(b as u64));
        assert(d1[b] == d0[b]);
        assert(d2[b] == d1[b]);
        assert(d3[b] == d2[b]);
        assert(d4[b] == d3[b]);
    }
}

/// Every index block that the tree has in `d` is the same in `e`.
pub open spec fn spec_same_index_blocks(d: Seq<Seq<u8>>, e: Seq<Seq<u8>>, root: u64, size: u64) -> bool {
    forall|k: nat, j: int|
        1 <= k <= spec_height(size) && 0 <= j < spec_level_count(size, k) ==> e[(#[trigger] spec_level_id(
            d,
            root,
            spec_height(size),
            k,
            j,
        )) as int] == d[spec_level_id(d, root, spec_height(size), k, j) as int]
}

/// Where the index blocks are the same, going down from the root finds
/// the same blocks.
proof fn lemma_level_id_frame(d: Seq<Seq<u8>>, e: Seq<Seq<u8>>, root: u64, size: u64, k: nat, j: int)
    requires
        size <= L4_MAX,
        spec_same_index_blocks(d, e, root, size),
        k <= spec_height(size),
        0 <= j < spec_level_count(size, k),
    ensures
        spec_level_id(e, root, spec_height(size), k, j) == spec_level_id(
            d,
            root,
            spec_height(size),
            k,
            j,
        ),
    decreases spec_height(size) - k,
{
    let h = spec_height(size);
    lemma_level_counts(size);
    if k >= h {
    } else {
        assert(j / 63 < spec_level_count(size, k + 1)) by {
            if k == 0 {
            } else if k == 1 {
            } else if k == 2 {
            } else {
            }
        }
        lemma_level_id_frame(d, e, root, size, k + 1, j / 63);
        let up = spec_level_id(d, root, h, k + 1, j / 63);
        assert(e[up as int] == d[up as int]);
    }
}

/// A well-formed file stays well-formed, with the same index blocks and
/// the same data blocks, when blocks other than its index blocks change.
#[verifier::spinoff_prover]
#[verifier::rlimit(40)]
pub proof fn lemma_tree_frame(d: Seq<Seq<u8>>, e: Seq<Seq<u8>>, m: MetaView)
    requires
        spec_meta_wf(d, m),
        blocks_wf(e),
        e.len() == d.len(),
        spec_same_index_blocks(d, e, m.indirect, m.size),
    ensures
        spec_meta_wf(e, m),
        spec_index_ids(e, m.indirect, m.size) == spec_index_ids(d, m.indirect, m.size),
        spec_data_ids(e, m) == spec_data_ids(d, m),
{
    let root = m.indirect;
    let size = m.size;
    let h = spec_height(size);
    lemma_level_counts(size);
    assert forall|k: nat, j: int| k <= h && 0 <= j < spec_level_count(size, k) implies #[trigger] spec_level_id(
        e,
        root,
        h,
        k,
        j,
    ) == spec_level_id(d, root, h, k, j) by {
        lemma_level_id_frame(d, e, root, size, k, j);
    }
    assert forall|k: nat| 1 <= k <= 4 implies #[trigger] spec_level_ids(e, root, size, k)
        =~= spec_level_ids(d, root, size, k) by {
        if k <= h {
            assert forall|j: int| 0 <= j < spec_level_count(size, k) implies spec_level_ids(
                e,
                root,
                size,
                k,
            )[j] == spec_level_ids(d, root, size, k)[j] by {
                assert(spec_level_id(e, root, h, k, j) == spec_level_id(d, root, h, k, j));
            }
        }
    }
    assert(spec_level_ids(e, root, size, 4) == spec_level_ids(d, root, size, 4));
    assert(spec_level_ids(e, root, size, 3) == spec_level_ids(d, root, size, 3));
    assert(spec_level_ids(e, root, size, 2) == spec_level_ids(d, root, size, 2));
    assert(spec_level_ids(e, root, size, 1) == spec_level_ids(d, root, size, 1));
    assert(spec_index_ids(e, root, size) == spec_index_ids(d, root, size));
    assert(spec_data_ids(e, m) =~= spec_data_ids(d, m)) by {
        assert forall|i: int| 0 <= i < spec_data_blocks(size) implies spec_block_id(e, m, i)
            == spec_block_id(d, m, i) by {
            if i >= 36 {
                assert(spec_level_id(e, root, h, 0, i - 36) == spec_level_id(d, root, h, 0, i - 36));
            }
        }
    }
    assert forall|k: nat, j: int|
        1 <= k <= h && 0 <= j < spec_level_count(size, k) implies #[trigger] spec_node_wf(
        e,
        root,
        size,
        k,
        j,
    ) by {
        assert(spec_node_wf(d, root, size, k, j));
        let id = spec_level_id(d, root, h, k, j);
        assert(spec_level_id(e, root, h, k, j) == id);
        assert(e[id as int] == d[id as int]);
        assert forall|c: int|
            0 <= c < 63 && 63 * j + c >= spec_level_count(
                size,
                (k - 1) as nat,
            ) implies #[trigger] spec_entry(e, id, c) == 0 by {
            assert(spec_entry(d, id, c) == 0);
        }
    }
    assert forall|p: int| 0 <= p < spec_rest(size) implies #[trigger] spec_level_id(e, root, h, 0, p)
        != 0 by {
        assert(spec_level_id(e, root, h, 0, p) == spec_level_id(d, root, h, 0, p));
        assert(spec_level_id(d, root, h, 0, p) != 0);
    }
}

/// Blocks that are unchanged outside a list of ids which holds no index
/// block of a tree leave the index blocks of the tree as they are.
pub proof fn lemma_unchanged_keeps_index(
    d: Seq<Seq<u8>>,
    e: Seq<Seq<u8>>,
    ids: Seq<u64>,
    root: u64,
    size: u64,
)
    requires
        spec_unchanged_outside(d, e, ids),
        spec_tree_wf(d, root, size),
        forall|t: int|
            0 <= t < spec_index_ids(d, root, size).len() ==> !ids.contains(
                #[trigger] spec_index_ids(d, root, size)[t],
            ),
    ensures
        spec_same_index_blocks(d, e, root, size),
{
    lemma_level_counts(size);
    let h = spec_height(size);
    let all = spec_index_ids(d, root, size);
    assert forall|k: nat, j: int|
        1 <= k <= h && 0 <= j < spec_level_count(size, k) implies e[(#[trigger] spec_level_id(
        d,
        root,
        h,
        k,
        j,
    )) as int] == d[spec_level_id(d, root, h, k, j) as int] by {
        let id = spec_level_id(d, root, h, k, j);
        assert(spec_node_wf(d, root, size, k, j));
        assert(all[spec_level_start(size, k) + j] == id);
        assert(!ids.contains(id));
    }
}

/// The ids to leave out of a walk: those of `filter`, or none.
pub open spec fn spec_left_out(filter: Option<&Vec<u64>>) -> Seq<u64> {
    match filter {
        Some(v) => v@,
        None => Seq::empty(),
    }
}

/// What a walk finds below the entries `entries[c..]` of a block of
/// level `level` (0 for a block table): the index blocks in the order in
/// which the walk comes to them, each before what lies below it, and the
/// data blocks in file order. Entries that are zero or among `out` are
/// passed over, with all that lies below them.
pub open spec fn spec_walk(d: Seq<Seq<u8>>, entries: Seq<u64>, level: nat, out: Seq<u64>, c: int) -> (
    Seq<u64>,
    Seq<u64>,
)
    decreases level, 63 - c,
{
    if c < 0 || c >= 63 {
        (Seq::empty(), Seq::empty())
    } else {
        let e = entries[c];
        let rest = spec_walk(d, entries, level, out, c + 1);
        if e == 0 || out.contains(e) {
            rest
        } else if level == 0 {
            (rest.0, seq![e] + rest.1)
        } else {
            let below = spec_walk(d, spec_entries(d[e as int]), (level - 1) as nat, out, 0);
            (seq![e] + below.0 + rest.0, below.1 + rest.1)
        }
    }
}

/// A walk below the entries `entries[c..]` of a block of level `level`
/// stays on the device and finds every block at its level: each entry
/// that is not passed over is, above level 0, a block of the device that
/// carries the tag of the level below, and the same holds below it.
pub open spec fn spec_walk_ok(d: Seq<Seq<u8>>, entries: Seq<u64>, level: nat, out: Seq<u64>, c: int) -> bool
    decreases level, 63 - c,
{
    if c < 0 || c >= 63 {
        true
    } else {
        let e = entries[c];
        &&& spec_walk_ok(d, entries, level, out, c + 1)
        &&& (e != 0 && !out.contains(e) && level > 0 ==> {
            &&& e < d.len()
            &&& spec_level_tag(d[e as int]) == level - 1
            &&& spec_walk_ok(d, spec_entries(d[e as int]), (level - 1) as nat, out, 0)
        })
    }
}

/// Whether `id` is among `filter`.
fn left_out(filter: Option<&Vec<u64>>, id: u64) -> (r: bool)
    ensures
        r == spec_left_out(filter).contains(id),
{
    match filter {
        None => false,
        Some(v) => {
            let n = v.len();
            let mut i: usize = 0;
            while i < n
                invariant
                    i <= n,
                    n == v@.len(),
                    spec_left_out(filter) == v@,
                    forall|j: int| 0 <= j < i ==> v@[j] != id,
                decreases n - i,
            {
                if v[i] == id {
                    assert(v@[i as int] == id);
                    return true;
                }
                i += 1;
            }
            false
        },
    }
}

impl IndirectBlock {
    /// Reads the indirect block stored in block `id`; `None` when the
    /// block carries no valid level tag.
    pub fn load<D: BlockDevice>(cache: &mut CacheManager<D>, id: u64) -> (r: Option<IndirectBlock>)
        requires
            old(cache).wf(),
            id < old(cache)@.len(),
        ensures
            final(cache).wf(),
            final(cache)@ == old(cache)@,
            match r {
                Some(blk) => {
                    &&& blk.entries@ == spec_entries(old(cache)@[id as int])
                    &&& IndirectBlockType::spec_from_tag(spec_level_tag(old(cache)@[id as int]))
                        == Some(blk.type_)
                },
                None => IndirectBlockType::spec_from_tag(spec_level_tag(old(cache)@[id as int]))
                    is None,
            },
    {
        let b = cache.read_block(id);
        IndirectBlock::decode(&b)
    }

    /// The index blocks and the data blocks below this block: the index
    /// blocks in the order in which a walk from entry to entry comes to
    /// them, each before what lies below it, and the data blocks in file
    /// order. Entries that are zero or in `filter` are passed over.
    pub fn to_vec<D: BlockDevice>(&self, cache: &mut CacheManager<D>, filter: Option<&Vec<u64>>) -> (r:
        (Vec<u64>, Vec<u64>))
        requires
            old(cache).wf(),
            spec_walk_ok(
                old(cache)@,
                self.entries@,
                self.type_.spec_tag() as nat,
                spec_left_out(filter),
                0,
            ),
        ensures
            final(cache).wf(),
            final(cache)@ == old(cache)@,
            (r.0@, r.1@) == spec_walk(
                old(cache)@,
                self.entries@,
                self.type_.spec_tag() as nat,
                spec_left_out(filter),
                0,
            ),
    {
        let mut data_ids = Vec::new();
        let mut index_ids = Vec::new();
        self._to_vec(&mut data_ids, &mut index_ids, cache, filter);
        assert(index_ids@ =~= spec_walk(
            old(cache)@,
            self.entries@,
            self.type_.spec_tag() as nat,
            spec_left_out(filter),
            0,
        ).0);
        assert(data_ids@ =~= spec_walk(
            old(cache)@,
            self.entries@,
            self.type_.spec_tag() as nat,
            spec_left_out(filter),
            0,
        ).1);
        (index_ids, data_ids)
    }

    #[verifier::spinoff_prover]
    #[verifier::rlimit(40)]
    fn _to_vec<D: BlockDevice>(
        &self,
        data_ids: &mut Vec<u64>,
        index_ids: &mut Vec<u64>,
        cache: &mut CacheManager<D>,
        filter: Option<&Vec<u64>>,
    )
        requires
            old(cache).wf(),
            spec_walk_ok(
                old(cache)@,
                self.entries@,
                self.type_.spec_tag() as nat,
                spec_left_out(filter),
                0,
            ),
        ensures
            final(cache).wf(),
            final(cache)@ == old(cache)@,
            final(index_ids)@ == old(index_ids)@ + spec_walk(
                old(cache)@,
                self.entries@,
                self.type_.spec_tag() as nat,
                spec_left_out(filter),
                0,
            ).0,
            final(data_ids)@ == old(data_ids)@ + spec_walk(
                old(cache)@,
                self.entries@,
                self.type_.spec_tag() as nat,
                spec_left_out(filter),
                0,
            ).1,
        decreases self.type_.spec_tag(),
    {
        let ghost d = cache@;
        let ghost out = spec_left_out(filter);
        let ghost level = self.type_.spec_tag() as nat;
        let ghost index0 = index_ids@;
        let ghost data0 = data_ids@;
        let mut c: usize = 0;
        while c < 63
            invariant
                c <= 63,
                cache.wf(),
                cache@ == d,
                out == spec_left_out(filter),
                level == self.type_.spec_tag(),
                spec_walk_ok(d, self.entries@, level, out, c as int),
                index_ids@ + spec_walk(d, self.entries@, level, out, c as int).0 == index0
                    + spec_walk(d, self.entries@, level, out, 0).0,
                data_ids@ + spec_walk(d, self.entries@, level, out, c as int).1 == data0
                    + spec_walk(d, self.entries@, level, out, 0).1,
            decreases 63 - c,
        {
            let id = self.entries[c];
            let ghost rest = spec_walk(d, self.entries@, level, out, c + 1);
            let ghost index1 = index_ids@;
            let ghost data1 = data_ids@;
            if id != 0 && !left_out(filter, id) {
                match self.type_ {
                    IndirectBlockType::BlockTable => {
                        data_ids.push(id);
                        proof {
                            assert(data_ids@ + rest.1 =~= data1 + (seq![id] + rest.1));
                        }
                    },
                    _ => {
                        index_ids.push(id);
                        let child = match IndirectBlock::load(cache, id) {
                            Some(b) => b,
                            None => {
                                assert(false);
                                vstd::pervasive::unreached()
                            },
                        };
                        child._to_vec(data_ids, index_ids, cache, filter);
                        proof {
                            let below = spec_walk(
                                d,
                                spec_entries(d[id as int]),
                                (level - 1) as nat,
                                out,
                                0,
                            );
                            assert(index_ids@ + rest.0 =~= index1 + (seq![id] + below.0 + rest.0));
                            assert(data_ids@ + rest.1 =~= data1 + (below.1 + rest.1));
                        }
                    },
                }
            }
            c += 1;
        }
        proof {
            assert(index_ids@ =~= index0 + spec_walk(d, self.entries@, level, out, 0).0);
            assert(data_ids@ =~= data0 + spec_walk(d, self.entries@, level, out, 0).1);
        }
    }

    /// The id of the data block at position `inner_id` below this block,
    /// which is block `j` of its level in the tree rooted at `root`.
    #[verifier::spinoff_prover]
    #[verifier::rlimit(40)]
    fn get_block_id<D: BlockDevice>(
        &self,
        inner_id: u64,
        cache: &mut CacheManager<D>,
        Ghost(root): Ghost<u64>,
        Ghost(size): Ghost<u64>,
        Ghost(j): Ghost<int>,
    ) -> (id: u64)
        requires
            old(cache).wf(),
            spec_tree_wf(old(cache)@, root, size),
            self.type_.spec_tag() + 1 <= spec_height(size),
            0 <= j < spec_level_count(size, (self.type_.spec_tag() + 1) as nat),
            self.entries@ == spec_entries(
                old(cache)@[spec_level_id(
                    old(cache)@,
                    root,
                    spec_height(size),
                    (self.type_.spec_tag() + 1) as nat,
                    j,
                ) as int],
            ),
            inner_id < spec_span((self.type_.spec_tag() + 1) as nat),
            j * spec_span((self.type_.spec_tag() + 1) as nat) + inner_id < spec_rest(size),
        ensures
            final(cache).wf(),
            final(cache)@ == old(cache)@,
            id == spec_level_id(
                old(cache)@,
                root,
                spec_height(size),
                0,
                j * spec_span((self.type_.spec_tag() + 1) as nat) + inner_id,
            ),
        decreases self.type_.spec_tag(),
    {
        let ghost d = cache@;
        let ghost h = spec_height(size);
        let ghost k = (self.type_.spec_tag() + 1) as nat;
        let ghost me = spec_level_id(d, root, h, k, j);
        proof {
            lemma_level_counts(size);
        }
        match self.type_ {
            IndirectBlockType::BlockTable => {
                proof {
                    let p = j * 63 + inner_id;
                    assert(p / 63 == j && p % 63 == inner_id as int);
                    assert(spec_level_id(d, root, h, 0, p) == spec_entry(d, me, inner_id as int));
                }
                self.entries[inner_id as usize]
            },
            dir => {
                let divisor: u64 = match dir {
                    IndirectBlockType::BlockTable => 1,
                    IndirectBlockType::BlockDirectory => 63,
                    IndirectBlockType::L3 => 3969,
                    IndirectBlockType::L4 => 250047,
                };
                assert(divisor == spec_span((k - 1) as nat));
                let index = inner_id / divisor;
                let offset = inner_id % divisor;
                let child_id = self.entries[index as usize];
                let ghost cj = 63 * j + index;
                proof {
                    assert(cj / 63 == j && cj % 63 == index as int);
                    assert(spec_level_id(d, root, h, (k - 1) as nat, cj) == spec_entry(
                        d,
                        me,
                        index as int,
                    ));
                    assert(j * spec_span(k) + inner_id == cj * spec_span((k - 1) as nat) + offset) by {
                        if k == 2 {
                            assert(inner_id == 63 * index + offset);
                            assert(j * 3969 + inner_id == (63 * j + index) * 63 + offset);
                        } else if k == 3 {
                            assert(inner_id == 3969 * index + offset);
                            assert(j * 250047 + inner_id == (63 * j + index) * 3969 + offset);
                        } else {
                            assert(k == 4);
                            assert(inner_id == 250047 * index + offset);
                            assert(j * 15752961 + inner_id == (63 * j + index) * 250047 + offset);
                        }
                    }
                    assert(cj < spec_level_count(size, (k - 1) as nat));
                    assert(spec_node_wf(d, root, size, (k - 1) as nat, cj));
                }
                let child = match IndirectBlock::load(cache, child_id) {
                    Some(b) => b,
                    None => {
                        assert(false);
                        vstd::pervasive::unreached()
                    },
                };
                child.get_block_id(offset, cache, Ghost(root), Ghost(size), Ghost(cj))
            },
        }
    }
}

impl Meta {
    /// The record and the blocks `d` together hold a well-formed file.
    pub open spec fn spec_wf(&self, d: Seq<Seq<u8>>) -> bool {
        spec_meta_wf(d, self@)
    }

    /// The id of data block `inner_id` of the file, or `None` when the
    /// file has no such block.
    pub fn get_block_id<D: BlockDevice>(&self, inner_id: u64, cache: &mut CacheManager<D>) -> (r:
        Option<u64>)
        requires
            old(cache).wf(),
            self.spec_wf(old(cache)@),
        ensures
            final(cache).wf(),
            final(cache)@ == old(cache)@,
            r is Some <==> inner_id < spec_data_blocks(self@.size),
            r is Some ==> r->0 == spec_block_id(old(cache)@, self@, inner_id as int),
            r is Some ==> r->0 == spec_data_ids(old(cache)@, self@)[inner_id as int],
            r is Some ==> r->0 != 0,
    {
        let ghost d = cache@;
        let ghost size = self@.size;
        if self.data_blocks() <= inner_id {
            None
        } else if inner_id < 36 {
            Some(self.direct()[inner_id as usize])
        } else {
            proof {
                lemma_level_counts(size);
                assert(spec_node_wf(d, self@.indirect, size, spec_height(size), 0));
            }
            let root = match IndirectBlock::load(cache, self.indirect()) {
                Some(b) => b,
                None => {
                    assert(false);
                    vstd::pervasive::unreached()
                },
            };
            Some(
                root.get_block_id(
                    inner_id - 36,
                    cache,
                    Ghost(self@.indirect),
                    Ghost(size),
                    Ghost(0),
                ),
            )
        }
    }

    /// The index blocks of the file in ascending order of their ids, and
    /// the data blocks of the file in file order.
    #[verifier::spinoff_prover]
    #[verifier::rlimit(40)]
    pub fn blocks<D: BlockDevice>(&self, cache: &mut CacheManager<D>) -> (r: (Vec<u64>, Vec<u64>))
        requires
            old(cache).wf(),
            self.spec_wf(old(cache)@),
        ensures
            final(cache).wf(),
            final(cache)@ == old(cache)@,
            r.0@ == spec_sort(spec_index_ids(old(cache)@, self@.indirect, self@.size)),
            r.1@ == spec_data_ids(old(cache)@, self@),
            r.0@.len() == spec_index_blocks(self@.size).spec_index_block_count(),
            r.1@.len() == spec_data_blocks(self@.size),
    {
        let ghost d = cache@;
        let ghost size = self@.size;
        let ghost root = self@.indirect;
        let ghost h = spec_height(size);
        let ghost n = spec_data_blocks(size);
        proof {
            lemma_level_counts(size);
            lemma_sorted_index(d, root, size);
            lemma_data_ids_nonzero(d, self@);
        }
        let mut blocks: Vec<u64> = Vec::new();
        let direct = self.direct();
        let mut i: usize = 0;
        while i < 36
            invariant
                i <= 36,
                direct@ == self@.direct,
                self.spec_wf(d),
                n == spec_data_blocks(self@.size),
                blocks@ == Seq::new(
                    (if i < n {
                        i as int
                    } else {
                        n
                    }) as nat,
                    |t: int| self@.direct[t],
                ),
            decreases 36 - i,
        {
            if direct[i] != 0 {
                blocks.push(direct[i]);
                assert(blocks@ =~= Seq::new((i + 1) as nat, |t: int| self@.direct[t]));
            }
            i += 1;
        }
        let mut index: Vec<u64> = Vec::new();
        if self.indirect() != 0 {
            proof {
                assert(h >= 1);
                assert(spec_node_wf(d, root, size, h, 0));
            }
            let root_blk = match IndirectBlock::load(cache, self.indirect()) {
                Some(b) => b,
                None => {
                    assert(false);
                    vstd::pervasive::unreached()
                },
            };
            let mut lvl: u64 = root_blk.type_.tag() + 1;
            let mut cur: Vec<u64> = Vec::new();
            cur.push(self.indirect());
            proof {
                assert(cur@ =~= spec_level_ids(d, root, size, h));
                assert(index@ =~= spec_index_above(d, root, size, h));
            }
            while lvl >= 1
                invariant
                    lvl <= h <= 4,
                    h == spec_height(size),
                    cache.wf(),
                    cache@ == d,
                    spec_tree_wf(d, root, size),
                    cur@ == spec_level_ids(d, root, size, lvl as nat),
                    index@ == spec_index_above(d, root, size, lvl as nat),
                decreases lvl,
            {
                let mut next = gather(cache, &cur, Ghost(root), Ghost(size), Ghost(lvl as nat));
                let ghost before = index@;
                index.append(&mut cur);
                proof {
                    assert(index@ =~= spec_index_above(d, root, size, (lvl - 1) as nat));
                }
                cur = next;
                lvl -= 1;
            }
            proof {
                assert(index@ =~= spec_index_ids(d, root, size));
                assert(n >= 36);
            }
            blocks.append(&mut cur);
            assert(blocks@ =~= spec_data_ids(d, self@));
        } else {
            proof {
                if h >= 1 {
                    assert(spec_node_wf(d, root, size, h, 0));
                }
                assert(index@ =~= spec_index_ids(d, root, size));
                assert(blocks@ =~= spec_data_ids(d, self@));
            }
        }
        let ghost unsorted = index@;
        sort_ids(&mut index);
        proof {
            lemma_sort_unique(unsorted, index@);
        }
        (index, blocks)
    }

    /// Lays the file out anew from the given ids.
    ///
    /// The first 36 data ids become the direct entries. The index ids are
    /// taken level by level, the top level first; each index block is
    /// written with the tag of its level and the next 63 ids of the level
    /// below, and the record is pointed at the single block of the top
    /// level. A file without indirect blocks gets the root zero.
    #[verifier::spinoff_prover]
    #[verifier::rlimit(40)]
    pub fn forward<D: BlockDevice>(
        &mut self,
        level_info: LevelInfo,
        index: Vec<u64>,
        data: Vec<u64>,
        cache: &mut CacheManager<D>,
    )
        requires
            old(cache).wf(),
            level_info == spec_index_blocks(old(self)@.size),
            spec_layout_input(old(cache)@, old(self)@.size, index@, data@),
        ensures
            final(cache).wf(),
            spec_unchanged_outside(old(cache)@, final(cache)@, index@),
            final(self)@.size == old(self)@.size,
            final(self)@.type_ == old(self)@.type_,
            final(self)@.name == old(self)@.name,
            final(self).spec_wf(final(cache)@),
            spec_index_ids(final(cache)@, final(self)@.indirect, final(self)@.size) == index@,
            spec_data_ids(final(cache)@, final(self)@) == data@,
    {
        let ghost d0 = cache@;
        let ghost size = self@.size;
        let ghost h = spec_height(size);
        proof {
            lemma_level_counts(size);
            cache.lemma_view_wf();
        }
        let data_len = data.len();
        let index_len = index.len();
        let mut direct = [0u64; 36];
        let mut i: usize = 0;
        while i < 36
            invariant
                i <= 36,
                data_len == data@.len(),
                forall|t: int| 0 <= t < i ==> direct@[t] == if t < data_len {
                    data@[t]
                } else {
                    0
                },
                forall|t: int| i <= t < 36 ==> direct@[t] == 0,
            decreases 36 - i,
        {
            if i < data_len {
                direct[i] = data[i];
            }
            i += 1;
        }
        let indirect_size = if self.size() >= DIRECT_MAX {
            self.size() - DIRECT_MAX
        } else {
            0
        };
        if indirect_size != 0 {
            let n4 = level_info.l4 as usize;
            let n3 = level_info.l3 as usize;
            let n2 = level_info.block_directory as usize;
            let n1 = level_info.block_table as usize;
            let ghost ls = spec_lists(size, index@, data@);
            write_level(cache, &index, 0, n4, IndirectBlockType::L4, &index, n4, n3);
            let ghost d1 = cache@;
            write_level(cache, &index, n4, n3, IndirectBlockType::L3, &index, n4 + n3, n2);
            let ghost d2 = cache@;
            write_level(
                cache,
                &index,
                n4 + n3,
                n2,
                IndirectBlockType::BlockDirectory,
                &index,
                n4 + n3 + n2,
                n1,
            );
            let ghost d3 = cache@;
            write_level(
                cache,
                &index,
                n4 + n3 + n2,
                n1,
                IndirectBlockType::BlockTable,
                &data,
                36,
                data_len - 36,
            );
            let ghost d4 = cache@;
            proof {
                assert(index@.subrange(0, n4 as int) == ls[4]);
                assert(index@.subrange(n4 as int, n4 + n3) == ls[3]);
                assert(index@.subrange(n4 as int, n4 + n3) == ls[3]);
                assert(index@.subrange(n4 + n3, n4 + n3 + n2) == ls[2]);
                assert(index@.subrange(n4 + n3 + n2, n4 + n3 + n2 + n1) == ls[1]);
                assert(data@.subrange(36, 36 + (data_len - 36)) == ls[0]);
                lemma_levels_written(d0, d1, d2, d3, d4, size, index@, data@);
                lemma_laid_out(d4, size, index@, data@);
            }
            let indirect = if level_info.l4 == 1 {
                index[0]
            } else if level_info.l3 == 1 {
                index[n4]
            } else if level_info.block_directory == 1 {
                index[n4 + n3]
            } else if level_info.block_table == 1 {
                index[n4 + n3 + n2]
            } else {
                self.indirect()
            };
            assert(indirect == index@[0]);
            self.set_index(direct, indirect);
            proof {
                assert(spec_data_ids(d4, self@) =~= data@);
            }
        } else {
            self.set_index(direct, 0);
            proof {
                assert(spec_index_ids(d0, 0, size) =~= index@);
                assert(spec_data_ids(d0, self@) =~= data@);
            }
        }
    }

    /// Grows the file to `new_size` bytes, taking `data_blocks` as its
    /// new data blocks and `index_blocks` as its new index blocks. The
    /// blocks it had stay, the data blocks at their places in the file.
    #[verifier::spinoff_prover]
    #[verifier::rlimit(40)]
    pub fn extend<D: BlockDevice>(
        &mut self,
        new_size: u64,
        new_info: LevelInfo,
        data_blocks: Vec<u64>,
        index_blocks: Vec<u64>,
        cache: &mut CacheManager<D>,
    )
        requires
            old(cache).wf(),
            old(self).spec_wf(old(cache)@),
            new_size >= old(self)@.size,
            new_info == spec_index_blocks(new_size),
            spec_layout_input(
                old(cache)@,
                new_size,
                spec_sort(spec_index_ids(old(cache)@, old(self)@.indirect, old(self)@.size))
                    + index_blocks@,
                spec_data_ids(old(cache)@, old(self)@) + data_blocks@,
            ),
        ensures
            final(cache).wf(),
            spec_unchanged_outside(
                old(cache)@,
                final(cache)@,
                spec_index_ids(old(cache)@, old(self)@.indirect, old(self)@.size) + index_blocks@,
            ),
            final(self)@.size == new_size,
            final(self)@.type_ == old(self)@.type_,
            final(self)@.name == old(self)@.name,
            final(self).spec_wf(final(cache)@),
            spec_index_ids(final(cache)@, final(self)@.indirect, new_size) == spec_sort(
                spec_index_ids(old(cache)@, old(self)@.indirect, old(self)@.size),
            ) + index_blocks@,
            spec_data_ids(final(cache)@, final(self)@) == spec_data_ids(old(cache)@, old(self)@)
                + data_blocks@,
    {
        let ghost d0 = cache@;
        let ghost old_ids = spec_index_ids(d0, self@.indirect, self@.size);
        let mut data_blocks = data_blocks;
        let mut index_blocks = index_blocks;
        let (mut index, mut data) = self.blocks(cache);
        self.set_size(new_size);
        let ghost sorted = index@;
        let ghost extra = index_blocks@;
        index.append(&mut index_blocks);
        data.append(&mut data_blocks);
        self.forward(new_info, index, data, cache);
        proof {
            lemma_sort_facts(old_ids);
            assert(sorted == spec_sort(old_ids));
            assert forall|b: int|
                0 <= b < d0.len() && !(old_ids + extra).contains(b as u64) implies #[trigger] cache@[b]
                    == d0[b] by {
                let x = b as u64;
                if (sorted + extra).contains(x) {
                    let t = choose|t: int| 0 <= t < (sorted + extra).len() && (sorted + extra)[t] == x;
                    if t < sorted.len() {
                        assert(sorted[t] == x);
                        assert(spec_sort(old_ids).contains(x));
                        assert(old_ids.contains(x));
                        let u = choose|u: int| 0 <= u < old_ids.len() && old_ids[u] == x;
                        assert((old_ids + extra)[u] == x);
                    } else {
                        assert(extra[t - sorted.len()] == x);
                        assert((old_ids + extra)[old_ids.len() + (t - sorted.len())] == x);
                    }
                    assert(false);
                }
            }
        }
    }

    /// Shrinks the file to `new_size` bytes and returns the index blocks
    /// and the data blocks that it no longer uses: the index blocks with
    /// the largest ids and the data blocks at the end of the file, each
    /// list from its last block backwards.
    #[verifier::spinoff_prover]
    #[verifier::rlimit(40)]
    pub fn shrink<D: BlockDevice>(&mut self, new_size: u64, cache: &mut CacheManager<D>) -> (r: (
        Vec<u64>,
        Vec<u64>,
    ))
        requires
            old(cache).wf(),
            old(self).spec_wf(old(cache)@),
            new_size <= old(self)@.size,
        ensures
            final(cache).wf(),
            spec_unchanged_outside(
                old(cache)@,
                final(cache)@,
                spec_index_ids(old(cache)@, old(self)@.indirect, old(self)@.size),
            ),
            final(self)@.size == new_size,
            final(self)@.type_ == old(self)@.type_,
            final(self)@.name == old(self)@.name,
            final(self).spec_wf(final(cache)@),
            ({
                let old_index = spec_sort(
                    spec_index_ids(old(cache)@, old(self)@.indirect, old(self)@.size),
                );
                let old_data = spec_data_ids(old(cache)@, old(self)@);
                let ni = spec_index_blocks(new_size).spec_index_block_count();
                let nd = spec_data_blocks(new_size);
                &&& 0 <= ni <= old_index.len()
                &&& 0 <= nd <= old_data.len()
                &&& spec_index_ids(final(cache)@, final(self)@.indirect, new_size)
                    == old_index.subrange(0, ni)
                &&& spec_data_ids(final(cache)@, final(self)@) == old_data.subrange(0, nd)
                &&& r.0@.len() == old_index.len() - ni
                &&& r.1@.len() == old_data.len() - nd
                &&& forall|t: int|
                    0 <= t < r.0@.len() ==> #[trigger] r.0@[t] == old_index[old_index.len() - 1 - t]
                &&& forall|t: int|
                    0 <= t < r.1@.len() ==> #[trigger] r.1@[t] == old_data[old_data.len() - 1 - t]
            }),
    {
        let ghost d0 = cache@;
        let ghost m0 = self@;
        let ghost old_ids = spec_index_ids(d0, m0.indirect, m0.size);
        proof {
            lemma_counts_monotone(new_size, m0.size);
            lemma_sorted_index(d0, m0.indirect, m0.size);
            lemma_data_ids_nonzero(d0, m0);
        }
        let prev_data_blocks = self.data_blocks();
        let curr_info = Self::index_blocks(self.size());
        let new_info = Self::index_blocks(new_size);
        let (mut index, mut data) = self.blocks(cache);
        self.set_size(new_size);
        let ghost old_index = index@;
        let ghost old_data = data@;
        let mut collected_index_ids: Vec<u64> = Vec::new();
        let mut collected_data_ids: Vec<u64> = Vec::new();
        let drop_index = curr_info.index_block_count() - new_info.index_block_count();
        let mut i: u64 = 0;
        while i < drop_index
            invariant
                i <= drop_index,
                drop_index <= old_index.len(),
                index@ == old_index.subrange(0, old_index.len() - i),
                collected_index_ids@.len() == i,
                forall|t: int|
                    0 <= t < i ==> #[trigger] collected_index_ids@[t] == old_index[old_index.len()
                        - 1 - t],
            decreases drop_index - i,
        {
            let id = index.pop().unwrap();
            collected_index_ids.push(id);
            assert(index@ =~= old_index.subrange(0, old_index.len() - (i + 1)));
            i += 1;
        }
        let drop_data = prev_data_blocks - Meta::_data_blocks(new_size);
        let mut i: u64 = 0;
        while i < drop_data
            invariant
                i <= drop_data,
                drop_data <= old_data.len(),
                data@ == old_data.subrange(0, old_data.len() - i),
                collected_data_ids@.len() == i,
                forall|t: int|
                    0 <= t < i ==> #[trigger] collected_data_ids@[t] == old_data[old_data.len() - 1
                        - t],
            decreases drop_data - i,
        {
            let id = data.pop().unwrap();
            collected_data_ids.push(id);
            assert(data@ =~= old_data.subrange(0, old_data.len() - (i + 1)));
            i += 1;
        }
        proof {
            let ni = spec_index_blocks(new_size).spec_index_block_count();
            let nd = spec_data_blocks(new_size);
            assert(index@ == old_index.subrange(0, ni));
            assert(data@ == old_data.subrange(0, nd));
            assert(index@.no_duplicates());
            assert forall|t: int| 0 <= t < index@.len() implies #[trigger] index@[t] != 0
                && index@[t] < d0.len() by {
                assert(index@[t] == old_index[t]);
            }
            assert forall|t: int| 0 <= t < data@.len() implies #[trigger] data@[t] != 0 by {
                assert(data@[t] == old_data[t]);
            }
        }
        let ghost kept = index@;
        self.forward(new_info, index, data, cache);
        proof {
            assert forall|b: int|
                0 <= b < d0.len() && !old_ids.contains(b as u64) implies #[trigger] cache@[b]
                == d0[b] by {
                if kept.contains(b as u64) {
                    let t = choose|t: int| 0 <= t < kept.len() && kept[t] == b as u64;
                    assert(old_index[t] == b as u64);
                    assert(old_index.contains(b as u64));
                }
            }
        }
        (collected_index_ids, collected_data_ids)
    }

    /// Empties the file and returns the blocks that it used: the index
    /// blocks in ascending order, then the data blocks in file order. Type
    /// and name stay.
    pub fn clear_size<D: BlockDevice>(&mut self, cache: &mut CacheManager<D>) -> (r: Vec<u64>)
        requires
            old(cache).wf(),
            old(self).spec_wf(old(cache)@),
        ensures
            final(cache).wf(),
            final(cache)@ == old(cache)@,
            final(self)@ == super::layout::spec_empty_meta(old(self)@.type_, old(self)@.name),
            final(self).spec_wf(final(cache)@),
            r@ == spec_sort(spec_index_ids(old(cache)@, old(self)@.indirect, old(self)@.size))
                + spec_data_ids(old(cache)@, old(self)@),
    {
        let (mut index, mut data) = self.blocks(cache);
        let type_ = self.type_();
        let name = self.name();
        self.init(type_, name);
        index.append(&mut data);
        proof {
            self.lemma_view_lengths();
            assert(spec_index_ids(cache@, 0, 0) =~= Seq::<u64>::empty());
        }
        index
    }
}

} // verus!
