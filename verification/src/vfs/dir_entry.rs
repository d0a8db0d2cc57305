//! Directory entries: the tree of names that the virtual filesystem keeps
//! in memory.
use crate::cafs::consistency::FileView;
use crate::cafs::directory::spec_dir_entries;
use crate::cafs::inode::{spec_name_len, spec_text};
use crate::cafs::filesystem::spec_held_with;
use crate::cafs::CAFS;
use crate::fs::{Inode, InodeType};
use crate::{BlockDevice, Error};
use vstd::prelude::*;

verus! {

/// A directory entry: an inode under its name, with the entries of its
/// children.
pub struct DirEntry {
    pub inode_type: InodeType,
    pub inode_number: u64,
    pub name: String,
    pub parent: Option<u64>,
    pub subdirs: Vec<DirEntry>,
}

/// A directory entry as plain values.
pub struct DirEntryView {
    pub inode_type: InodeType,
    pub inode_number: u64,
    pub name: Seq<char>,
    pub parent: Option<u64>,
    pub subdirs: Seq<DirEntryView>,
}

/// The name of a file as text: the bytes of its name field before the
/// first zero byte.
pub open spec fn spec_file_name(f: FileView) -> Seq<char> {
    spec_text(f.name.subrange(0, spec_name_len(f.name)))
}

/// The inode numbers recorded in inode `n`: those of its children if it
/// is a directory, none if it is a file.
pub open spec fn spec_kids(files: Map<u64, FileView>, n: u64) -> Seq<u64> {
    if files[n].type_ == InodeType::File {
        Seq::empty()
    } else {
        spec_dir_entries(files[n].data)
    }
}

/// The entry of inode `n` with the entries below it down to `depth`
/// levels, as the files say.
pub open spec fn spec_dentry(
    files: Map<u64, FileView>,
    n: u64,
    parent: Option<u64>,
    depth: nat,
) -> DirEntryView
    decreases depth, 0nat,
{
    DirEntryView {
        inode_type: files[n].type_,
        inode_number: n,
        name: spec_file_name(files[n]),
        parent,
        subdirs: if depth == 0 {
            Seq::empty()
        } else {
            spec_children(files, spec_kids(files, n), n, (depth - 1) as nat)
        },
    }
}

/// The entries of those of the inodes `kids` that are in use, each with
/// the entries below it down to `depth` levels.
pub open spec fn spec_children(
    files: Map<u64, FileView>,
    kids: Seq<u64>,
    parent: u64,
    depth: nat,
) -> Seq<DirEntryView>
    decreases depth, kids.len() + 1,
{
    if kids.len() == 0 {
        Seq::empty()
    } else {
        let rest = spec_children(files, kids.drop_last(), parent, depth);
        if files.dom().contains(kids.last()) {
            rest.push(spec_dentry(files, kids.last(), Some(parent), depth))
        } else {
            rest
        }
    }
}

/// The numbers of the inodes that the filesystem holds in memory once the
/// entries below inode `n` have been read down to `depth` levels, when
/// they were `h` before: the inode itself is asked for, and then each
/// child in use, with what is below it, in the order of the records.
pub open spec fn spec_held_read(files: Map<u64, FileView>, h: Seq<u64>, n: u64, depth: nat) -> Seq<
    u64,
>
    decreases depth, 0nat,
{
    if depth == 0 {
        h
    } else {
        spec_held_kids(files, spec_held_with(h, n), spec_kids(files, n), (depth - 1) as nat)
    }
}

/// The numbers of the inodes held in memory once the entries of those of
/// the inodes `kids` that are in use have been read, each down to `depth`
/// levels, when they were `h` before.
pub open spec fn spec_held_kids(
    files: Map<u64, FileView>,
    h: Seq<u64>,
    kids: Seq<u64>,
    depth: nat,
) -> Seq<u64>
    decreases depth, kids.len() + 1,
{
    if kids.len() == 0 {
        h
    } else {
        let rest = spec_held_kids(files, h, kids.drop_last(), depth);
        if files.dom().contains(kids.last()) {
            spec_held_read(files, spec_held_with(rest, kids.last()), kids.last(), depth)
        } else {
            rest
        }
    }
}

/// Every entry of the tree stands for an inode in use.
pub open spec fn spec_tree_ok(node: DirEntryView, files: Map<u64, FileView>) -> bool
    decreases node,
{
    &&& files.dom().contains(node.inode_number)
    &&& forall|i: int|
        #![trigger node.subdirs[i]]
        if 0 <= i < node.subdirs.len() {
            spec_tree_ok(node.subdirs[i], files)
        } else {
            true
        }
}

/// The index of the first of the entries `subdirs`, from `from` on, that
/// has the name `name`; -1 if none has.
pub open spec fn spec_first_named(subdirs: Seq<DirEntryView>, name: Seq<char>, from: int) -> int
    decreases subdirs.len() - from,
{
    if from < 0 || from >= subdirs.len() {
        -1
    } else if subdirs[from].name == name {
        from
    } else {
        spec_first_named(subdirs, name, from + 1)
    }
}

/// The entry that the names `dirs[k..]` lead to from `node`, going at
/// each step to the first child of that name; or the first name that no
/// child has.
pub open spec fn spec_find(node: DirEntryView, dirs: Seq<Seq<char>>, k: int) -> Result<
    DirEntryView,
    Seq<char>,
>
    decreases dirs.len() - k,
{
    if k < 0 || k >= dirs.len() {
        Ok(node)
    } else {
        let i = spec_first_named(node.subdirs, dirs[k], 0);
        if 0 <= i < node.subdirs.len() {
            spec_find(node.subdirs[i], dirs, k + 1)
        } else {
            Err(dirs[k])
        }
    }
}

/// The tree `node` with `child` added as the last child of the entry
/// that the names `dirs[k..]` lead to.
pub open spec fn spec_attach(
    node: DirEntryView,
    dirs: Seq<Seq<char>>,
    k: int,
    child: DirEntryView,
) -> DirEntryView
    decreases dirs.len() - k,
{
    if k < 0 || k >= dirs.len() {
        DirEntryView { subdirs: node.subdirs.push(child), ..node }
    } else {
        let i = spec_first_named(node.subdirs, dirs[k], 0);
        if 0 <= i < node.subdirs.len() {
            DirEntryView {
                subdirs: node.subdirs.update(i, spec_attach(node.subdirs[i], dirs, k + 1, child)),
                ..node
            }
        } else {
            node
        }
    }
}

/// The first entry of a name, if there is one, is an entry of that name.
pub proof fn lemma_first_named(subdirs: Seq<DirEntryView>, name: Seq<char>, from: int)
    requires
        0 <= from,
    ensures
        spec_first_named(subdirs, name, from) == -1 || (from <= spec_first_named(
            subdirs,
            name,
            from,
        ) < subdirs.len() && subdirs[spec_first_named(subdirs, name, from)].name == name),
        forall|j: int|
            from <= j < subdirs.len() && (spec_first_named(subdirs, name, from) == -1 || j
                < spec_first_named(subdirs, name, from)) ==> subdirs[j].name != name,
    decreases subdirs.len() - from,
{
    if from < subdirs.len() && subdirs[from].name != name {
        lemma_first_named(subdirs, name, from + 1);
    }
}

/// The entries made from the files stand for inodes in use.
pub proof fn lemma_dentry_ok(files: Map<u64, FileView>, n: u64, parent: Option<u64>, depth: nat)
    requires
        files.dom().contains(n),
    ensures
        spec_tree_ok(spec_dentry(files, n, parent, depth), files),
    decreases depth, 0nat,
{
    let node = spec_dentry(files, n, parent, depth);
    if depth > 0 {
        lemma_children_ok(files, spec_kids(files, n), n, (depth - 1) as nat);
    }
    assert forall|i: int| #![trigger node.subdirs[i]] 0 <= i < node.subdirs.len() implies spec_tree_ok(
        node.subdirs[i],
        files,
    ) by {
        let kids = spec_children(files, spec_kids(files, n), n, (depth - 1) as nat);
        assert(node.subdirs == kids);
        assert(spec_tree_ok(kids[i], files));
    }
}

/// The entries made for the children of an inode stand for inodes in use.
pub proof fn lemma_children_ok(files: Map<u64, FileView>, kids: Seq<u64>, parent: u64, depth: nat)
    ensures
        forall|i: int|
            0 <= i < spec_children(files, kids, parent, depth).len() ==> #[trigger] spec_tree_ok(
                spec_children(files, kids, parent, depth)[i],
                files,
            ),
    decreases depth, kids.len() + 1,
{
    let all = spec_children(files, kids, parent, depth);
    if kids.len() > 0 {
        let rest = spec_children(files, kids.drop_last(), parent, depth);
        lemma_children_ok(files, kids.drop_last(), parent, depth);
        if files.dom().contains(kids.last()) {
            lemma_dentry_ok(files, kids.last(), Some(parent), depth);
        }
        assert forall|i: int| 0 <= i < all.len() implies #[trigger] spec_tree_ok(all[i], files) by {
            if i < rest.len() {
                assert(all[i] == rest[i]);
                assert(spec_tree_ok(rest[i], files));
            }
        }
    }
}

/// An entry found in a tree whose entries stand for inodes in use stands
/// for an inode in use.
pub proof fn lemma_find_ok(node: DirEntryView, dirs: Seq<Seq<char>>, k: int, files: Map<u64, FileView>)
    requires
        spec_tree_ok(node, files),
        0 <= k,
        spec_find(node, dirs, k) is Ok,
    ensures
        spec_tree_ok(spec_find(node, dirs, k)->Ok_0, files),
        files.dom().contains(spec_find(node, dirs, k)->Ok_0.inode_number),
    decreases dirs.len() - k,
{
    if k < dirs.len() {
        let i = spec_first_named(node.subdirs, dirs[k], 0);
        lemma_first_named(node.subdirs, dirs[k], 0);
        assert(0 <= i < node.subdirs.len());
        assert(spec_tree_ok(node.subdirs[i], files));
        lemma_find_ok(node.subdirs[i], dirs, k + 1, files);
    }
}

/// A tree whose entries stand for inodes in use is such a tree after an
/// entry for an inode in use has been added to it.
pub proof fn lemma_attach_ok(
    node: DirEntryView,
    dirs: Seq<Seq<char>>,
    k: int,
    child: DirEntryView,
    files: Map<u64, FileView>,
)
    requires
        spec_tree_ok(node, files),
        spec_tree_ok(child, files),
        0 <= k,
    ensures
        spec_tree_ok(spec_attach(node, dirs, k, child), files),
    decreases dirs.len() - k,
{
    let after = spec_attach(node, dirs, k, child);
    if k >= dirs.len() {
        assert forall|i: int|
            #![trigger after.subdirs[i]]
            0 <= i < after.subdirs.len() implies spec_tree_ok(after.subdirs[i], files) by {
            if i < node.subdirs.len() {
                assert(spec_tree_ok(node.subdirs[i], files));
            }
        }
    } else {
        let j = spec_first_named(node.subdirs, dirs[k], 0);
        if 0 <= j < node.subdirs.len() {
            assert(spec_tree_ok(node.subdirs[j], files));
            lemma_attach_ok(node.subdirs[j], dirs, k + 1, child, files);
            assert forall|i: int|
                #![trigger after.subdirs[i]]
                0 <= i < after.subdirs.len() implies spec_tree_ok(after.subdirs[i], files) by {
                if i != j {
                    assert(spec_tree_ok(node.subdirs[i], files));
                }
            }
        }
    }
}

/// Where no entry has the name of the new entry, the new entry is the
/// first of its name among the entries with it added.
pub proof fn lemma_first_named_push(subdirs: Seq<DirEntryView>, child: DirEntryView, from: int)
    requires
        0 <= from <= subdirs.len(),
        spec_first_named(subdirs, child.name, from) == -1,
    ensures
        spec_first_named(subdirs.push(child), child.name, from) == subdirs.len(),
    decreases subdirs.len() - from,
{
    let more = subdirs.push(child);
    if from < subdirs.len() {
        assert(more[from] == subdirs[from]);
        lemma_first_named_push(subdirs, child, from + 1);
    } else {
        assert(more[from] == child);
    }
}

/// Entries that keep their names keep the first entry of each name.
pub proof fn lemma_first_named_same_names(
    subdirs: Seq<DirEntryView>,
    other: Seq<DirEntryView>,
    name: Seq<char>,
    from: int,
)
    requires
        0 <= from,
        subdirs.len() == other.len(),
        forall|i: int| 0 <= i < subdirs.len() ==> (#[trigger] subdirs[i]).name == other[i].name,
    ensures
        spec_first_named(other, name, from) == spec_first_named(subdirs, name, from),
    decreases subdirs.len() - from,
{
    if from < subdirs.len() {
        assert(subdirs[from].name == other[from].name);
        if subdirs[from].name != name {
            lemma_first_named_same_names(subdirs, other, name, from + 1);
        }
    }
}

/// Adding an entry below a tree leaves the name of the root of the tree
/// as it is.
pub proof fn lemma_attach_keeps_name(
    node: DirEntryView,
    dirs: Seq<Seq<char>>,
    k: int,
    child: DirEntryView,
)
    ensures
        spec_attach(node, dirs, k, child).name == node.name,
        spec_attach(node, dirs, k, child).inode_number == node.inode_number,
{
}

/// An entry that was added where the names `dirs[k..]` lead to is found
/// under those names and its own, if no entry there had its name before.
pub proof fn lemma_attached_is_found(
    node: DirEntryView,
    dirs: Seq<Seq<char>>,
    k: int,
    child: DirEntryView,
)
    requires
        0 <= k <= dirs.len(),
        spec_find(node, dirs, k) is Ok,
        spec_first_named(spec_find(node, dirs, k)->Ok_0.subdirs, child.name, 0) == -1,
    ensures
        spec_find(spec_attach(node, dirs, k, child), dirs.push(child.name), k) == Ok::<
            DirEntryView,
            Seq<char>,
        >(child),
    decreases dirs.len() - k,
{
    let after = spec_attach(node, dirs, k, child);
    let names = dirs.push(child.name);
    if k >= dirs.len() {
        assert(names[k] == child.name);
        lemma_first_named_push(node.subdirs, child, 0);
        assert(after.subdirs[node.subdirs.len() as int] == child);
        assert(spec_find(child, names, k + 1) == Ok::<DirEntryView, Seq<char>>(child));
    } else {
        assert(names[k] == dirs[k]);
        let i = spec_first_named(node.subdirs, dirs[k], 0);
        lemma_first_named(node.subdirs, dirs[k], 0);
        let below = spec_attach(node.subdirs[i], dirs, k + 1, child);
        lemma_attach_keeps_name(node.subdirs[i], dirs, k + 1, child);
        assert forall|t: int| 0 <= t < node.subdirs.len() implies (#[trigger] node.subdirs[t]).name
            == after.subdirs[t].name by {}
        lemma_first_named_same_names(node.subdirs, after.subdirs, dirs[k], 0);
        lemma_attached_is_found(node.subdirs[i], dirs, k + 1, child);
        assert(after.subdirs[i] == below);
    }
}

/// A tree whose entries stand for inodes in use is such a tree for every
/// collection of files that has those inodes.
pub proof fn lemma_tree_ok_more(node: DirEntryView, files: Map<u64, FileView>, more: Map<u64, FileView>)
    requires
        spec_tree_ok(node, files),
        forall|i: u64| files.dom().contains(i) ==> more.dom().contains(i),
    ensures
        spec_tree_ok(node, more),
    decreases node,
{
    assert forall|i: int| #![trigger node.subdirs[i]] 0 <= i < node.subdirs.len() implies spec_tree_ok(
        node.subdirs[i],
        more,
    ) by {
        assert(spec_tree_ok(node.subdirs[i], files));
        lemma_tree_ok_more(node.subdirs[i], files, more);
    }
}

impl DirEntry {
    /// The entry as plain values.
    pub open spec fn view(&self) -> DirEntryView
        decreases self,
    {
        DirEntryView {
            inode_type: self.inode_type,
            inode_number: self.inode_number,
            name: self.name@,
            parent: self.parent,
            subdirs: Seq::new(
                self.subdirs@.len(),
                |i: int|
                    if 0 <= i < self.subdirs@.len() {
                        self.subdirs@[i]@
                    } else {
                        vstd::pervasive::arbitrary()
                    },
            ),
        }
    }

    /// The entry of inode `inode_number`, without the entries of its
    /// children.
    pub fn new<D: BlockDevice>(parent: Option<u64>, inode_number: u64, fs: &mut CAFS<D>) -> (r: Self)
        requires
            old(fs).wf(),
            old(fs).spec_exists(inode_number),
        ensures
            final(fs).wf(),
            final(fs).spec_same_disk(old(fs)),
            r@ == spec_dentry(old(fs)@, inode_number, parent, 0),
            final(fs).spec_held() == spec_held_with(old(fs).spec_held(), inode_number),
    {
        let inode = fs.inode(inode_number);
        let name = inode.name();
        let inode_type = inode.inode_type();
        let r = Self { parent, name, inode_number, inode_type, subdirs: Vec::new() };
        assert(r@.subdirs =~= Seq::<DirEntryView>::empty());
        r
    }

    /// The number of the inode that the entry stands for.
    pub fn inode_number(&self) -> (n: u64)
        ensures
            n == self@.inode_number,
    {
        self.inode_number
    }

    /// Reads the entries below this entry, down to `depth` levels, from
    /// the filesystem. Children that are recorded but not in use are left
    /// out.
    pub fn read_sub_dentry<D: BlockDevice>(&mut self, fs: &mut CAFS<D>, depth: u64)
        requires
            old(fs).wf(),
            old(fs).spec_exists(old(self)@.inode_number),
            old(self)@ == spec_dentry(old(fs)@, old(self)@.inode_number, old(self)@.parent, 0),
        ensures
            final(fs).wf(),
            final(fs).spec_same_disk(old(fs)),
            final(self)@ == spec_dentry(
                old(fs)@,
                old(self)@.inode_number,
                old(self)@.parent,
                depth as nat,
            ),
            final(fs).spec_held() == spec_held_read(
                old(fs)@,
                old(fs).spec_held(),
                old(self)@.inode_number,
                depth as nat,
            ),
        decreases depth,
    {
        if depth == 0 {
            return;
        }
        let ghost files = fs@;
        let ghost held = spec_held_with(fs.spec_held(), self.inode_number);
        let ghost me = self@;
        let number = self.inode_number;
        let sub_inodes = fs.sub_inodes(number);
        let n = sub_inodes.len();
        let mut i: usize = 0;
        while i < n
            invariant
                i <= n,
                n == sub_inodes@.len(),
                depth > 0,
                fs.wf(),
                fs@ == files,
                fs.spec_same_disk(old(fs)),
                sub_inodes@ == spec_kids(files, number),
                self.inode_number == number,
                fs.spec_held() == spec_held_kids(
                    files,
                    held,
                    sub_inodes@.subrange(0, i as int),
                    (depth - 1) as nat,
                ),
                self@ == (DirEntryView {
                    subdirs: spec_children(
                        files,
                        sub_inodes@.subrange(0, i as int),
                        number,
                        (depth - 1) as nat,
                    ),
                    ..me
                }),
            decreases n - i,
        {
            let inode_number = sub_inodes[i];
            let ghost before = self@;
            let ghost kids = sub_inodes@.subrange(0, i + 1);
            proof {
                assert(kids.drop_last() =~= sub_inodes@.subrange(0, i as int));
                assert(kids.last() == inode_number);
            }
            if fs.contains(inode_number) {
                let mut dentry = DirEntry::new(Some(number), inode_number, fs);
                dentry.read_sub_dentry(fs, depth - 1);
                let ghost prev = self.subdirs@;
                self.subdirs.push(dentry);
                proof {
                    assert(self.subdirs@[prev.len() as int] == dentry);
                    assert forall|t: int| 0 <= t < prev.len() implies self.subdirs@[t] == prev[t] by {}
                    assert(self@.subdirs =~= before.subdirs.push(dentry@));
                }
            }
            i += 1;
        }
        proof {
            assert(sub_inodes@.subrange(0, n as int) =~= sub_inodes@);
        }
    }

    /// The index of the first child named `name`, if there is one.
    pub fn child_index(&self, name: &String) -> (r: Option<usize>)
        ensures
            match r {
                Some(i) => i == spec_first_named(self@.subdirs, name@, 0) && i < self@.subdirs.len(),
                None => spec_first_named(self@.subdirs, name@, 0) == -1,
            },
    {
        let n = self.subdirs.len();
        let mut i: usize = 0;
        while i < n
            invariant
                i <= n,
                n == self.subdirs@.len(),
                n == self@.subdirs.len(),
                spec_first_named(self@.subdirs, name@, 0) == spec_first_named(
                    self@.subdirs,
                    name@,
                    i as int,
                ),
            decreases n - i,
        {
            assert(self@.subdirs[i as int] == self.subdirs@[i as int]@);
            if self.subdirs[i].name == *name {
                return Some(i);
            }
            i += 1;
        }
        None
    }

    /// The entry that the names `dirs` lead to from this entry, going at
    /// each step to the first child of that name; or the first name that
    /// no child has.
    pub fn find(&self, dirs: &Vec<String>) -> (r: Result<&DirEntry, Error>)
        ensures
            match r {
                Ok(d) => spec_find(self@, crate::vfs::path::spec_texts(dirs@), 0) == Ok::<
                    DirEntryView,
                    Seq<char>,
                >(d@),
                Err(Error::NotExist(s)) => spec_find(
                    self@,
                    crate::vfs::path::spec_texts(dirs@),
                    0,
                ) == Err::<DirEntryView, Seq<char>>(s@),
                Err(_) => false,
            },
    {
        let ghost names = crate::vfs::path::spec_texts(dirs@);
        let mut dir: &DirEntry = self;
        let n = dirs.len();
        let mut k: usize = 0;
        while k < n
            invariant
                k <= n,
                n == dirs@.len(),
                names == crate::vfs::path::spec_texts(dirs@),
                spec_find(self@, names, 0) == spec_find(dir@, names, k as int),
            decreases n - k,
        {
            let parent_dir = &dirs[k];
            assert(names[k as int] == parent_dir@);
            match dir.child_index(parent_dir) {
                Some(i) => {
                    assert(dir@.subdirs[i as int] == dir.subdirs@[i as int]@);
                    dir = &dir.subdirs[i];
                },
                None => {
                    return Err(Error::NotExist(parent_dir.clone()));
                },
            }
            k += 1;
        }
        Ok(dir)
    }

    /// Adds `child` as the last child of the entry that the names
    /// `dirs[k..]` lead to.
    pub fn attach(&mut self, dirs: &Vec<String>, k: usize, child: DirEntry)
        requires
            k <= dirs@.len(),
        ensures
            final(self)@ == spec_attach(
                old(self)@,
                crate::vfs::path::spec_texts(dirs@),
                k as int,
                child@,
            ),
        decreases dirs@.len() - k,
    {
        let ghost before = self@;
        let ghost names = crate::vfs::path::spec_texts(dirs@);
        if k >= dirs.len() {
            let ghost prev = self.subdirs@;
            self.subdirs.push(child);
            proof {
                assert(self.subdirs@[prev.len() as int] == child);
                assert forall|t: int| 0 <= t < prev.len() implies self.subdirs@[t] == prev[t] by {}
                assert(self@.subdirs =~= before.subdirs.push(child@));
            }
        } else {
            assert(names[k as int] == dirs@[k as int]@);
            match self.child_index(&dirs[k]) {
                Some(i) => {
                    let ghost prev = self.subdirs@;
                    assert(before.subdirs[i as int] == prev[i as int]@);
                    self.subdirs[i].attach(dirs, k + 1, child);
                    proof {
                        assert forall|t: int| 0 <= t < prev.len() && t != i implies self.subdirs@[t]
                            == prev[t] by {}
                        assert(self@.subdirs =~= before.subdirs.update(
                            i as int,
                            spec_attach(before.subdirs[i as int], names, k + 1, child@),
                        ));
                    }
                },
                None => {},
            }
        }
    }
}

} // verus!
