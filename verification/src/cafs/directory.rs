//! The contents of a directory: the ten-byte records of its children, one
//! after the other, with a single zero byte between two records.
//!
//! No byte of a record is zero, so the zero bytes of the contents are the
//! separators and nothing else.
use super::{
    inode_number_binary, inode_number_from, lemma_inode_number_round_trip,
    spec_inode_number_binary, spec_inode_number_from,
};
use vstd::prelude::*;

verus! {

/// The contents `data` of a directory with the record of `id` added.
pub open spec fn spec_dir_append(data: Seq<u8>, id: u64) -> Seq<u8> {
    if data.len() == 0 {
        spec_inode_number_binary(id)
    } else {
        data + seq![0u8] + spec_inode_number_binary(id)
    }
}

/// The contents of a directory whose children were added in the order of
/// `ids`.
pub open spec fn spec_dir_payload(ids: Seq<u64>) -> Seq<u8>
    decreases ids.len(),
{
    if ids.len() == 0 {
        Seq::empty()
    } else {
        spec_dir_append(spec_dir_payload(ids.drop_last()), ids.last())
    }
}

/// The inode number of the stretch `start .. end` of `data`, which no
/// zero byte interrupts: the number that its first ten bytes stand for. A
/// stretch of fewer than ten bytes is no record and gives nothing.
pub open spec fn spec_stretch(data: Seq<u8>, start: int, end: int) -> Seq<u64> {
    if end - start >= 10 {
        seq![spec_inode_number_from(data.subrange(start, start + 10))]
    } else {
        Seq::empty()
    }
}

/// The inode numbers found in `data` from byte `from` on, where the
/// stretch that is being read began at byte `start`.
pub open spec fn spec_scan(data: Seq<u8>, from: int, start: int) -> Seq<u64>
    decreases data.len() - from,
{
    if from >= data.len() {
        spec_stretch(data, start, data.len() as int)
    } else if data[from] == 0 {
        spec_stretch(data, start, from) + spec_scan(data, from + 1, from + 1)
    } else {
        spec_scan(data, from + 1, start)
    }
}

/// The inode numbers of the children recorded in the contents `data` of a
/// directory, in the order of the records.
pub open spec fn spec_dir_entries(data: Seq<u8>) -> Seq<u64> {
    if data.len() == 0 {
        Seq::empty()
    } else {
        spec_scan(data, 0, 0)
    }
}

proof fn lemma_scan_nonzero(data: Seq<u8>, from: int, start: int)
    requires
        0 <= from <= data.len(),
        forall|i: int| from <= i < data.len() ==> data[i] != 0,
    ensures
        spec_scan(data, from, start) == spec_stretch(data, start, data.len() as int),
    decreases data.len() - from,
{
    if from < data.len() {
        lemma_scan_nonzero(data, from + 1, start);
    }
}

proof fn lemma_scan_shift(a: Seq<u8>, b: Seq<u8>, from: int, start: int)
    requires
        0 <= start <= from <= b.len(),
    ensures
        spec_scan(a + b, a.len() + from, a.len() + start) == spec_scan(b, from, start),
    decreases b.len() - from,
{
    let ab = a + b;
    assert forall|s: int, e: int| 0 <= s <= e <= b.len() implies #[trigger] spec_stretch(
        ab,
        a.len() + s,
        a.len() + e,
    ) == spec_stretch(b, s, e) by {
        if e - s >= 10 {
            assert(ab.subrange(a.len() + s, a.len() + s + 10) =~= b.subrange(s, s + 10));
        }
    }
    if from >= b.len() {
        assert(spec_stretch(ab, a.len() + start, (a.len() + b.len()) as int) == spec_stretch(
            b,
            start,
            b.len() as int,
        ));
    } else {
        assert(ab[a.len() + from] == b[from]);
        if b[from] == 0 {
            lemma_scan_shift(a, b, from + 1, from + 1);
            assert(spec_stretch(ab, a.len() + start, a.len() + from) == spec_stretch(
                b,
                start,
                from,
            ));
        } else {
            lemma_scan_shift(a, b, from + 1, start);
        }
    }
}

proof fn lemma_scan_prefix(a: Seq<u8>, b: Seq<u8>, from: int, start: int)
    requires
        0 <= start <= from <= a.len(),
    ensures
        spec_scan(a + seq![0u8] + b, from, start) == spec_scan(a, from, start) + spec_scan(b, 0, 0),
    decreases a.len() - from,
{
    let all = a + seq![0u8] + b;
    let head = a + seq![0u8];
    assert forall|s: int, e: int| 0 <= s <= e <= a.len() implies #[trigger] spec_stretch(all, s, e)
        == spec_stretch(a, s, e) by {
        if e - s >= 10 {
            assert(all.subrange(s, s + 10) =~= a.subrange(s, s + 10));
        }
    }
    if from >= a.len() {
        assert(all[from] == 0);
        lemma_scan_shift(head, b, 0, 0);
        assert(spec_stretch(all, start, from) == spec_stretch(a, start, a.len() as int));
    } else {
        assert(all[from] == a[from]);
        if a[from] == 0 {
            lemma_scan_prefix(a, b, from + 1, from + 1);
            assert(spec_stretch(all, start, from) == spec_stretch(a, start, from));
            assert(spec_scan(all, from, start) =~= spec_scan(a, from, start) + spec_scan(b, 0, 0));
        } else {
            lemma_scan_prefix(a, b, from + 1, start);
        }
    }
}

/// Adding the record of `id` to the contents of a directory adds `id` to
/// its children and leaves the children it had.
pub proof fn lemma_dir_append(data: Seq<u8>, id: u64)
    ensures
        spec_dir_entries(spec_dir_append(data, id)) == spec_dir_entries(data).push(id),
{
    let rec = spec_inode_number_binary(id);
    lemma_inode_number_round_trip(id);
    lemma_scan_nonzero(rec, 0, 0);
    assert(rec.subrange(0, 10) =~= rec);
    assert(spec_scan(rec, 0, 0) == seq![id]);
    if data.len() == 0 {
        assert(spec_dir_entries(data).push(id) =~= seq![id]);
    } else {
        lemma_scan_prefix(data, rec, 0, 0);
        assert(spec_dir_entries(data).push(id) =~= spec_scan(data, 0, 0) + seq![id]);
    }
}

/// The children recorded in the contents of a directory are the children
/// that were added to it, in the order in which they were added.
pub proof fn lemma_dir_round_trip(ids: Seq<u64>)
    ensures
        spec_dir_entries(spec_dir_payload(ids)) == ids,
    decreases ids.len(),
{
    if ids.len() == 0 {
        assert(spec_dir_entries(spec_dir_payload(ids)) =~= ids);
    } else {
        lemma_dir_round_trip(ids.drop_last());
        lemma_dir_append(spec_dir_payload(ids.drop_last()), ids.last());
        assert(ids.drop_last().push(ids.last()) =~= ids);
    }
}

/// The contents `data` of a directory with the record of `id` added.
pub fn dir_append(data: Vec<u8>, id: u64) -> (r: Vec<u8>)
    ensures
        r@ == spec_dir_append(data@, id),
{
    let mut contents = data;
    if contents.len() != 0 {
        contents.push(0);
    }
    let record = inode_number_binary(id);
    let ghost before = contents@;
    let mut i: usize = 0;
    while i < 10
        invariant
            i <= 10,
            record@ == spec_inode_number_binary(id),
            contents@ == before + record@.subrange(0, i as int),
        decreases 10 - i,
    {
        contents.push(record[i]);
        assert(contents@ =~= before + record@.subrange(0, i + 1));
        i += 1;
    }
    assert(record@.subrange(0, 10) =~= record@);
    assert(contents@ =~= spec_dir_append(data@, id));
    contents
}

/// The inode numbers of the children recorded in the contents `data` of a
/// directory.
pub fn dir_entries(data: &Vec<u8>) -> (inodes: Vec<u64>)
    ensures
        inodes@ == spec_dir_entries(data@),
{
    let mut inodes: Vec<u64> = Vec::new();
    let n = data.len();
    if n == 0 {
        return inodes;
    }
    let mut start: usize = 0;
    let mut i: usize = 0;
    while i < n
        invariant
            0 <= start <= i <= n,
            n == data@.len(),
            inodes@ + spec_scan(data@, i as int, start as int) == spec_scan(data@, 0, 0),
        decreases n - i,
    {
        if data[i] == 0 {
            let ghost before = inodes@;
            if i - start >= 10 {
                let mut arr = [0u8; 10];
                let mut k: usize = 0;
                while k < 10
                    invariant
                        k <= 10,
                        start + 10 <= i <= n,
                        n == data@.len(),
                        forall|t: int| 0 <= t < k ==> arr@[t] == data@[start + t],
                    decreases 10 - k,
                {
                    arr[k] = data[start + k];
                    k += 1;
                }
                assert(arr@ =~= data@.subrange(start as int, start + 10));
                inodes.push(inode_number_from(arr));
            }
            assert(inodes@ =~= before + spec_stretch(data@, start as int, i as int));
            assert(inodes@ + spec_scan(data@, i + 1, i + 1) =~= before + (spec_stretch(
                data@,
                start as int,
                i as int,
            ) + spec_scan(data@, i + 1, i + 1)));
            start = i + 1;
        }
        i += 1;
    }
    let ghost before = inodes@;
    if n - start >= 10 {
        let mut arr = [0u8; 10];
        let mut k: usize = 0;
        while k < 10
            invariant
                k <= 10,
                start + 10 <= n,
                n == data@.len(),
                forall|t: int| 0 <= t < k ==> arr@[t] == data@[start + t],
            decreases 10 - k,
        {
            arr[k] = data[start + k];
            k += 1;
        }
        assert(arr@ =~= data@.subrange(start as int, start + 10));
        inodes.push(inode_number_from(arr));
    }
    assert(inodes@ =~= before + spec_stretch(data@, start as int, n as int));
    inodes
}

} // verus!
