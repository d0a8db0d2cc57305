//! The depth-first walk and the index by position find the same blocks.
//!
//! `Meta::blocks` lists the blocks of a file level by level;
//! `IndirectBlock::to_vec` walks the tree depth-first. For a well-formed
//! file the two agree: the walk from the root finds the data blocks past
//! the direct ones in file order, and, with the root, the index blocks of
//! the file.
use super::layout::{spec_data_blocks, spec_entries, spec_level_tag, MetaView};
use super::tree::{
    lemma_level_counts, lemma_sort_facts, lemma_sort_unique, spec_data_ids, spec_entry,
    spec_height, spec_index_ids, spec_level_count, spec_level_id, spec_level_ids, spec_meta_wf,
    spec_node_wf, spec_rest, spec_sort, spec_span, spec_tree_wf, spec_walk, spec_walk_ok,
};
use vstd::multiset::Multiset;
use vstd::prelude::*;
use vstd::seq_lib::lemma_multiset_commutative;

verus! {

/// The smaller of `a` and `b`.
pub open spec fn spec_min(a: int, b: int) -> int {
    if a < b {
        a
    } else {
        b
    }
}

/// The data blocks past the direct ones at the positions `lo .. hi`.
pub open spec fn spec_data_range(d: Seq<Seq<u8>>, root: u64, size: u64, lo: int, hi: int) -> Seq<u64> {
    Seq::new(
        (spec_min(hi, spec_rest(size)) - spec_min(lo, spec_rest(size))) as nat,
        |t: int| spec_level_id(d, root, spec_height(size), 0, spec_min(lo, spec_rest(size)) + t),
    )
}

/// Entry `c` of block `j` of level `k` is block `63 * j + c` of the level
/// below.
proof fn lemma_entry_is_child(d: Seq<Seq<u8>>, root: u64, size: u64, k: nat, j: int, c: int)
    requires
        1 <= k <= spec_height(size),
        0 <= j,
        0 <= c < 63,
    ensures
        spec_entries(d[spec_level_id(d, root, spec_height(size), k, j) as int])[c] == spec_level_id(
            d,
            root,
            spec_height(size),
            (k - 1) as nat,
            63 * j + c,
        ),
{
    let p = 63 * j + c;
    assert(p / 63 == j && p % 63 == c);
    let id = spec_level_id(d, root, spec_height(size), k, j);
    assert(spec_level_id(d, root, spec_height(size), (k - 1) as nat, p) == spec_entry(d, id, c));
}

/// The walk below block `j` of level `k`, from entry `c` on, stays in the
/// tree and finds the data blocks that lie below those entries, in file
/// order.
#[verifier::spinoff_prover]
#[verifier::rlimit(40)]
proof fn lemma_walk_data(d: Seq<Seq<u8>>, root: u64, size: u64, k: nat, j: int, c: int)
    requires
        spec_tree_wf(d, root, size),
        1 <= k <= spec_height(size),
        0 <= j < spec_level_count(size, k),
        0 <= c <= 63,
    ensures
        spec_walk_ok(
            d,
            spec_entries(d[spec_level_id(d, root, spec_height(size), k, j) as int]),
            (k - 1) as nat,
            Seq::empty(),
            c,
        ),
        spec_walk(
            d,
            spec_entries(d[spec_level_id(d, root, spec_height(size), k, j) as int]),
            (k - 1) as nat,
            Seq::empty(),
            c,
        ).1 == spec_data_range(
            d,
            root,
            size,
            (63 * j + c) * spec_span((k - 1) as nat),
            (63 * j + 63) * spec_span((k - 1) as nat),
        ),
    decreases k, 63 - c,
{
    let h = spec_height(size);
    let rest = spec_rest(size);
    let below = (k - 1) as nat;
    let span = spec_span(below);
    let me = spec_level_id(d, root, h, k, j);
    let entries = spec_entries(d[me as int]);
    let out = Seq::<u64>::empty();
    let cnt = spec_level_count(size, below);
    lemma_level_counts(size);
    assert(spec_node_wf(d, root, size, k, j));
    let target = spec_data_range(d, root, size, (63 * j + c) * span, (63 * j + 63) * span);
    if c >= 63 {
        assert(spec_walk(d, entries, below, out, c).1 =~= target);
    } else {
        let p = 63 * j + c;
        let e = entries[c];
        lemma_entry_is_child(d, root, size, k, j, c);
        lemma_walk_data(d, root, size, k, j, c + 1);
        let after = spec_walk(d, entries, below, out, c + 1);
        assert(after.1 == spec_data_range(d, root, size, (p + 1) * span, (63 * j + 63) * span));
        assert(cnt * span >= rest && (cnt - 1) * span < rest || rest == 0) by {
            if below == 0 {
            } else if below == 1 {
            } else if below == 2 {
            } else {
            }
        }
        if p >= cnt {
            assert(spec_entry(d, me, c) == 0);
            assert(e == 0);
            assert(p * span >= rest) by {
                if below == 0 {
                } else if below == 1 {
                } else if below == 2 {
                } else {
                }
            }
            assert((p + 1) * span >= rest) by {
                if below == 0 {
                } else if below == 1 {
                } else if below == 2 {
                } else {
                }
            }
            assert(spec_walk(d, entries, below, out, c).1 =~= target);
        } else {
            assert(p * span < rest) by {
                if below == 0 {
                } else if below == 1 {
                } else if below == 2 {
                } else {
                }
            }
            if below == 0 {
                assert(e != 0);
                assert(!out.contains(e));
                assert(spec_walk(d, entries, below, out, c).1 == seq![e] + after.1);
                assert(seq![e] + after.1 =~= target);
            } else {
                assert(spec_node_wf(d, root, size, below, p));
                assert(e != 0);
                assert(!out.contains(e));
                lemma_walk_data(d, root, size, below, p, 0);
                let lower = spec_walk(d, spec_entries(d[e as int]), (below - 1) as nat, out, 0);
                let lspan = spec_span((below - 1) as nat);
                assert(63 * lspan == span) by {
                    if below == 1 {
                    } else if below == 2 {
                    } else {
                    }
                }
                assert((63 * p + 0) * lspan == p * span && (63 * p + 63) * lspan == (p + 1) * span)
                    by {
                    if below == 1 {
                    } else if below == 2 {
                    } else {
                    }
                }
                assert(lower.1 == spec_data_range(d, root, size, p * span, (p + 1) * span));
                assert(spec_walk(d, entries, below, out, c).1 == lower.1 + after.1);
                assert(lower.1 + after.1 =~= target);
            }
        }
    }
}

/// The depth-first walk from the root of a well-formed file stays in the
/// tree and finds the data blocks past the direct ones, in file order.
pub proof fn lemma_walk_finds_data(d: Seq<Seq<u8>>, m: MetaView)
    requires
        spec_meta_wf(d, m),
        spec_height(m.size) >= 1,
    ensures
        spec_walk_ok(
            d,
            spec_entries(d[m.indirect as int]),
            (spec_height(m.size) - 1) as nat,
            Seq::empty(),
            0,
        ),
        spec_data_ids(d, m) == m.direct + spec_walk(
            d,
            spec_entries(d[m.indirect as int]),
            (spec_height(m.size) - 1) as nat,
            Seq::empty(),
            0,
        ).1,
{
    let h = spec_height(m.size);
    let rest = spec_rest(m.size);
    lemma_level_counts(m.size);
    lemma_walk_data(d, m.indirect, m.size, h, 0, 0);
    let found = spec_walk(d, spec_entries(d[m.indirect as int]), (h - 1) as nat, Seq::empty(), 0).1;
    assert(63 * spec_span((h - 1) as nat) >= rest) by {
        if h == 1 {
        } else if h == 2 {
        } else if h == 3 {
        } else {
        }
    }
    assert(found.len() == rest);
    assert(spec_data_ids(d, m) =~= m.direct + found);
}

/// The blocks of level `k` at the positions `lo .. hi`, as far as the
/// level has blocks there.
pub open spec fn spec_range(d: Seq<Seq<u8>>, root: u64, size: u64, k: nat, lo: int, hi: int) -> Seq<
    u64,
> {
    Seq::new(
        (spec_min(hi, spec_level_count(size, k)) - spec_min(lo, spec_level_count(size, k))) as nat,
        |t: int|
            spec_level_id(d, root, spec_height(size), k, spec_min(lo, spec_level_count(size, k)) + t),
    )
}

/// The index blocks that lie below the blocks `lo .. hi` of level `k - 1`
/// and those blocks themselves, each level as a bag of ids: what a walk
/// over those entries of level `k` finds.
pub open spec fn spec_found(d: Seq<Seq<u8>>, root: u64, size: u64, k: nat, lo: int, hi: int) -> Multiset<
    u64,
> {
    (if k >= 2 {
        spec_range(d, root, size, (k - 1) as nat, lo, hi).to_multiset()
    } else {
        Multiset::empty()
    }).add(
        if k >= 3 {
            spec_range(d, root, size, (k - 2) as nat, 63 * lo, 63 * hi).to_multiset()
        } else {
            Multiset::empty()
        },
    ).add(
        if k >= 4 {
            spec_range(d, root, size, (k - 3) as nat, 3969 * lo, 3969 * hi).to_multiset()
        } else {
            Multiset::empty()
        },
    )
}

/// A stretch of a level is its first part and the rest.
proof fn lemma_range_split(d: Seq<Seq<u8>>, root: u64, size: u64, k: nat, a: int, b: int, c: int)
    requires
        0 <= a <= b <= c,
    ensures
        spec_range(d, root, size, k, a, c) == spec_range(d, root, size, k, a, b) + spec_range(
            d,
            root,
            size,
            k,
            b,
            c,
        ),
        spec_range(d, root, size, k, a, c).to_multiset() == spec_range(
            d,
            root,
            size,
            k,
            a,
            b,
        ).to_multiset().add(spec_range(d, root, size, k, b, c).to_multiset()),
{
    assert(spec_range(d, root, size, k, a, c) =~= spec_range(d, root, size, k, a, b) + spec_range(
        d,
        root,
        size,
        k,
        b,
        c,
    ));
    lemma_multiset_commutative(spec_range(d, root, size, k, a, b), spec_range(d, root, size, k, b, c));
}

/// A list without ids is an empty bag of ids.
proof fn lemma_empty_bag(s: Seq<u64>)
    requires
        s.len() == 0,
    ensures
        s.to_multiset() == Multiset::<u64>::empty(),
{
    s.to_multiset_ensures();
    vstd::multiset::lemma_multiset_empty_len(s.to_multiset());
    assert(s.to_multiset() =~= Multiset::<u64>::empty());
}

/// A stretch that begins where the level has ended is empty.
proof fn lemma_range_empty(d: Seq<Seq<u8>>, root: u64, size: u64, k: nat, a: int, b: int)
    requires
        spec_level_count(size, k) <= a,
        spec_level_count(size, k) <= b,
        0 <= spec_level_count(size, k),
    ensures
        spec_range(d, root, size, k, a, b).to_multiset() == Multiset::<u64>::empty(),
{
    lemma_empty_bag(spec_range(d, root, size, k, a, b));
}

/// The walk below block `j` of level `k`, from entry `c` on, finds the
/// index blocks that lie below those entries, each once.
#[verifier::spinoff_prover]
#[verifier::rlimit(60)]
proof fn lemma_walk_index(d: Seq<Seq<u8>>, root: u64, size: u64, k: nat, j: int, c: int)
    requires
        spec_tree_wf(d, root, size),
        1 <= k <= spec_height(size),
        0 <= j < spec_level_count(size, k),
        0 <= c <= 63,
    ensures
        spec_walk(
            d,
            spec_entries(d[spec_level_id(d, root, spec_height(size), k, j) as int]),
            (k - 1) as nat,
            Seq::empty(),
            c,
        ).0.to_multiset() == spec_found(d, root, size, k, 63 * j + c, 63 * j + 63),
    decreases k, 63 - c,
{
    let h = spec_height(size);
    let below = (k - 1) as nat;
    let me = spec_level_id(d, root, h, k, j);
    let entries = spec_entries(d[me as int]);
    let out = Seq::<u64>::empty();
    let cnt = spec_level_count(size, below);
    let last = 63 * j + 63;
    let none = Multiset::<u64>::empty();
    lemma_level_counts(size);
    assert(spec_node_wf(d, root, size, k, j));
    let walked = spec_walk(d, entries, below, out, c).0;
    if c >= 63 {
        lemma_empty_bag(walked);
        lemma_empty_bag(spec_range(d, root, size, (k - 1) as nat, last, last));
        lemma_empty_bag(spec_range(d, root, size, (k - 2) as nat, 63 * last, 63 * last));
        lemma_empty_bag(spec_range(d, root, size, (k - 3) as nat, 3969 * last, 3969 * last));
        assert(walked.to_multiset() =~= spec_found(d, root, size, k, last, last));
    } else {
        let p = 63 * j + c;
        let e = entries[c];
        lemma_entry_is_child(d, root, size, k, j, c);
        lemma_walk_index(d, root, size, k, j, c + 1);
        let after = spec_walk(d, entries, below, out, c + 1).0;
        assert(after.to_multiset() == spec_found(d, root, size, k, p + 1, last));
        if below == 0 {
            assert(walked == after);
            assert(spec_found(d, root, size, k, p, last) =~= none);
            assert(spec_found(d, root, size, k, p + 1, last) =~= none);
        } else if p >= cnt {
            assert(spec_entry(d, me, c) == 0);
            assert(walked == after);
            lemma_range_empty(d, root, size, below, p, last);
            lemma_range_empty(d, root, size, below, p + 1, last);
            if k >= 3 {
                assert(spec_level_count(size, (k - 2) as nat) <= 63 * cnt);
                lemma_range_empty(d, root, size, (k - 2) as nat, 63 * p, 63 * last);
                lemma_range_empty(d, root, size, (k - 2) as nat, 63 * (p + 1), 63 * last);
            }
            if k >= 4 {
                assert(spec_level_count(size, (k - 3) as nat) <= 3969 * cnt);
                lemma_range_empty(d, root, size, (k - 3) as nat, 3969 * p, 3969 * last);
                lemma_range_empty(d, root, size, (k - 3) as nat, 3969 * (p + 1), 3969 * last);
            }
            assert(spec_found(d, root, size, k, p, last) =~= spec_found(
                d,
                root,
                size,
                k,
                p + 1,
                last,
            ));
        } else {
            assert(spec_node_wf(d, root, size, below, p));
            assert(e != 0);
            assert(!out.contains(e));
            lemma_walk_index(d, root, size, below, p, 0);
            let lower = spec_walk(d, spec_entries(d[e as int]), (below - 1) as nat, out, 0).0;
            assert(lower.to_multiset() == spec_found(d, root, size, below, 63 * p, 63 * p + 63));
            assert(walked == seq![e] + lower + after);
            lemma_multiset_commutative(seq![e] + lower, after);
            lemma_multiset_commutative(seq![e], lower);
            lemma_range_split(d, root, size, below, p, p + 1, last);
            assert(spec_range(d, root, size, below, p, p + 1) =~= seq![e]);
            if k >= 3 {
                lemma_range_split(d, root, size, (k - 2) as nat, 63 * p, 63 * (p + 1), 63 * last);
            }
            if k >= 4 {
                lemma_range_split(
                    d,
                    root,
                    size,
                    (k - 3) as nat,
                    3969 * p,
                    3969 * (p + 1),
                    3969 * last,
                );
                assert(63 * (63 * p) == 3969 * p && 63 * (63 * p + 63) == 3969 * (p + 1));
            }
            assert(walked.to_multiset() =~= spec_found(d, root, size, k, p, last));
        }
    }
}

/// The root and the index blocks that the depth-first walk from the root
/// finds are, in ascending order, the index blocks of the file in
/// ascending order: what `Meta::blocks` returns.
pub proof fn lemma_walk_finds_index(d: Seq<Seq<u8>>, m: MetaView)
    requires
        spec_meta_wf(d, m),
        spec_height(m.size) >= 1,
    ensures
        spec_sort(
            seq![m.indirect] + spec_walk(
                d,
                spec_entries(d[m.indirect as int]),
                (spec_height(m.size) - 1) as nat,
                Seq::empty(),
                0,
            ).0,
        ) == spec_sort(spec_index_ids(d, m.indirect, m.size)),
{
    let size = m.size;
    let root = m.indirect;
    let h = spec_height(size);
    lemma_level_counts(size);
    lemma_walk_index(d, root, size, h, 0, 0);
    let walked = spec_walk(d, spec_entries(d[root as int]), (h - 1) as nat, Seq::empty(), 0).0;
    let all = seq![root] + walked;
    let ids = spec_index_ids(d, root, size);
    let l4 = spec_level_ids(d, root, size, 4);
    let l3 = spec_level_ids(d, root, size, 3);
    let l2 = spec_level_ids(d, root, size, 2);
    let l1 = spec_level_ids(d, root, size, 1);
    assert forall|k: nat| 1 <= k < h implies #[trigger] spec_range(
        d,
        root,
        size,
        k,
        0,
        63 * spec_span((h - 1 - k) as nat),
    ) =~= spec_level_ids(d, root, size, k) by {
        if h == 2 {
        } else if h == 3 {
            if k == 1 {
            } else {
            }
        } else {
            if k == 1 {
            } else if k == 2 {
            } else {
            }
        }
    }
    lemma_multiset_commutative(seq![root], walked);
    lemma_multiset_commutative(l4 + l3 + l2, l1);
    lemma_multiset_commutative(l4 + l3, l2);
    lemma_multiset_commutative(l4, l3);
    assert(spec_level_ids(d, root, size, h) =~= seq![root]);
    if h == 1 {
        lemma_empty_bag(l4);
        lemma_empty_bag(l3);
        lemma_empty_bag(l2);
        assert(all.to_multiset() =~= ids.to_multiset());
    } else if h == 2 {
        lemma_empty_bag(l4);
        lemma_empty_bag(l3);
        assert(spec_range(d, root, size, 1, 0, 63 * spec_span(0)) == l1);
        assert(all.to_multiset() =~= ids.to_multiset());
    } else if h == 3 {
        lemma_empty_bag(l4);
        assert(spec_range(d, root, size, 2, 0, 63 * spec_span(0)) == l2);
        assert(spec_range(d, root, size, 1, 0, 63 * spec_span(1)) == l1);
        assert(all.to_multiset() =~= ids.to_multiset());
    } else {
        assert(spec_range(d, root, size, 3, 0, 63 * spec_span(0)) == l3);
        assert(spec_range(d, root, size, 2, 0, 63 * spec_span(1)) == l2);
        assert(spec_range(d, root, size, 1, 0, 63 * spec_span(2)) == l1);
        assert(all.to_multiset() =~= ids.to_multiset());
    }
    lemma_sort_facts(all);
    lemma_sort_unique(ids, spec_sort(all));
}

} // verus!
