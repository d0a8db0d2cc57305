//! The virtual filesystem: a tree of directory entries over the
//! filesystem on disk, and operations on files by path.
use crate::cafs::consistency::{spec_formatted, spec_geometry_of, FileView};
use crate::cafs::directory::spec_dir_append;
use crate::cafs::inode::spec_name_field;
use crate::cafs::layout::{SuperBlock, L4_MAX};
use crate::cafs::filesystem::{lemma_held_again, spec_held_with};
use crate::cafs::CAFS;
use crate::fs::{Inode, InodeType};
use crate::{blocks_wf, BlockDevice, Error};
use crate::cafs::inode::lemma_name_round_trip;
use dir_entry::{
    lemma_attach_ok, lemma_attached_is_found, lemma_dentry_ok, lemma_find_ok,
    lemma_tree_ok_more, spec_attach, spec_dentry, spec_find, spec_first_named, spec_held_read,
    spec_tree_ok, DirEntryView,
};
use path::{spec_has_slash, spec_names, spec_texts};
use vstd::prelude::*;
use vstd::utf8::encode_utf8;

pub mod dir_entry;
pub mod path;

pub use dir_entry::DirEntry;
pub use path::{parse_path, Path};

verus! {

/// A mounted filesystem with the tree of its directory entries.
pub struct VFS<D: BlockDevice> {
    primary_partition: CAFS<D>,
    dentry_cache: DirEntry,
}

/// The number of the free inode with the lowest number.
pub open spec fn spec_lowest_free(files: Map<u64, FileView>) -> u64 {
    choose|id: u64|
        !files.dom().contains(id) && forall|i: u64| i < id ==> files.dom().contains(i)
}

/// There is one free inode with the lowest number.
pub proof fn lemma_lowest_free(files: Map<u64, FileView>, id: u64)
    requires
        !files.dom().contains(id),
        forall|i: u64| i < id ==> files.dom().contains(i),
    ensures
        spec_lowest_free(files) == id,
{
    let other = spec_lowest_free(files);
    assert(!files.dom().contains(other) && forall|i: u64| i < other ==> files.dom().contains(i));
    if other < id {
        assert(files.dom().contains(other));
    } else if id < other {
        assert(files.dom().contains(id));
    }
}

impl<D: BlockDevice> VFS<D> {
    /// The filesystem on disk.
    pub closed spec fn fs(&self) -> CAFS<D> {
        self.primary_partition
    }

    /// The tree of directory entries, from the root.
    pub closed spec fn root(&self) -> DirEntryView {
        self.dentry_cache@
    }

    /// The filesystem is well-formed, and every directory entry stands
    /// for an inode in use.
    pub open spec fn wf(&self) -> bool {
        &&& self.fs().wf()
        &&& spec_tree_ok(self.root(), self.fs()@)
    }

    /// The entry that the names `names` lead to from the root, or the
    /// first name that is not found.
    pub open spec fn spec_lookup(&self, names: Seq<Seq<char>>) -> Result<DirEntryView, Seq<char>> {
        spec_find(self.root(), names, 0)
    }

    /// The contents of the file at `path`, or the first name of the path
    /// that is not found.
    pub open spec fn spec_read(&self, path: Seq<char>) -> Result<Seq<u8>, Seq<char>> {
        match self.spec_lookup(spec_names(path)) {
            Ok(d) => Ok(self.fs()@[d.inode_number].data),
            Err(s) => Err(s),
        }
    }

    /// A file named `name` can be created in directory `dir`: an inode is
    /// free, the name fits the name field, and the directory can take one
    /// more record.
    pub open spec fn spec_can_create(&self, dir: u64, name: Seq<char>) -> bool {
        &&& self.fs().spec_free_inodes() > 0
        &&& encode_utf8(name).len() <= crate::cafs::NAME_LENGTH_LIMIT
        &&& CAFS::<D>::spec_dir_grown(self.fs()@[dir].data.len()) <= L4_MAX
        &&& CAFS::<D>::spec_blocks_for(CAFS::<D>::spec_dir_grown(self.fs()@[dir].data.len()) as u64)
            - self.fs().spec_used_blocks(dir) <= self.fs().spec_free_blocks()
    }

    /// Contents of `len` bytes can be written to inode `n`: the index can
    /// address them, and there are blocks enough.
    pub open spec fn spec_can_write(&self, n: u64, len: nat) -> bool {
        &&& len <= L4_MAX
        &&& CAFS::<D>::spec_blocks_for(len as u64) - self.fs().spec_used_blocks(n)
            <= self.fs().spec_free_blocks()
    }

    /// Mounts the filesystem that `block_device` holds and reads the tree
    /// of its directory entries, from the root directory, inode 0, down.
    pub fn new(block_device: D) -> (vfs: Self)
        requires
            blocks_wf(block_device.contents()),
            spec_formatted(block_device.contents()),
            spec_geometry_of(SuperBlock::spec_decode(block_device.contents()[0])).inode_used(
                block_device.contents(),
                0,
            ),
        ensures
            vfs.wf(),
            vfs.fs().disk() == block_device.contents(),
            vfs.root() == spec_dentry(vfs.fs()@, 0, None, u64::MAX as nat),
            vfs.fs().spec_held() == spec_held_read(
                vfs.fs()@,
                seq![0u64],
                0,
                u64::MAX as nat,
            ),
    {
        let mut fs = CAFS::open(block_device);
        assert(fs.spec_held() =~= Seq::<u64>::empty());
        let mut root_dentry = DirEntry::new(None, 0, &mut fs);
        assert(fs.spec_held() =~= seq![0u64]);
        root_dentry.read_sub_dentry(&mut fs, u64::MAX);
        proof {
            lemma_dentry_ok(fs@, 0, None, u64::MAX as nat);
        }
        Self { primary_partition: fs, dentry_cache: root_dentry }
    }

    /// The name of the root directory, then the names of its children.
    pub fn ls_root(&self) -> (strs: Vec<String>)
        ensures
            strs@.len() == 1 + self.root().subdirs.len(),
            strs@[0]@ == self.root().name,
            forall|i: int|
                0 <= i < self.root().subdirs.len() ==> strs@[i + 1]@ == self.root().subdirs[i].name,
    {
        let root = &self.dentry_cache;
        let mut strs: Vec<String> = Vec::new();
        strs.push(root.name.clone());
        let n = root.subdirs.len();
        let mut i: usize = 0;
        while i < n
            invariant
                i <= n,
                n == root.subdirs@.len(),
                n == root@.subdirs.len(),
                strs@.len() == 1 + i,
                strs@[0]@ == root@.name,
                forall|t: int| 0 <= t < i ==> strs@[t + 1]@ == root@.subdirs[t].name,
            decreases n - i,
        {
            let d = &root.subdirs[i];
            assert(root@.subdirs[i as int] == root.subdirs@[i as int]@);
            strs.push(d.name.clone());
            i += 1;
        }
        strs
    }

    /// The entry that the names `dirs` lead to from the root, or the
    /// first name that is not found.
    pub fn find_dentry(&self, dirs: &Vec<String>) -> (r: Result<&DirEntry, Error>)
        ensures
            match r {
                Ok(d) => self.spec_lookup(spec_texts(dirs@)) == Ok::<DirEntryView, Seq<char>>(d@),
                Err(Error::NotExist(s)) => self.spec_lookup(spec_texts(dirs@)) == Err::<
                    DirEntryView,
                    Seq<char>,
                >(s@),
                Err(_) => false,
            },
    {
        self.dentry_cache.find(dirs)
    }

    /// Creates an empty file at `path`: in the directory that the path
    /// leads to, under the last name of the path. Where the directory had
    /// no entry of that name, and the name has no zero byte, the path
    /// leads to the new file afterwards. The inodes and the blocks change
    /// as the filesystem's own `create` says.
    #[verifier::spinoff_prover]
    #[verifier::rlimit(40)]
    pub fn create(&mut self, path: &str) -> (r: Result<(), Error>)
        requires
            old(self).wf(),
            spec_has_slash(path@),
            old(self).spec_lookup(spec_names(path@).drop_last()) is Ok ==> old(self).spec_can_create(
                old(self).spec_lookup(spec_names(path@).drop_last())->Ok_0.inode_number,
                spec_names(path@).last(),
            ),
        ensures
            final(self).wf(),
            match r {
                Ok(_) => {
                    let dir = old(self).spec_lookup(spec_names(path@).drop_last());
                    let id = spec_lowest_free(old(self).fs()@);
                    &&& dir is Ok
                    &&& !old(self).fs()@.dom().contains(id)
                    &&& final(self).fs()@ == old(self).fs()@.insert(
                        id,
                        FileView {
                            type_: InodeType::File,
                            name: spec_name_field(encode_utf8(spec_names(path@).last())),
                            data: Seq::empty(),
                        },
                    ).insert(
                        dir->Ok_0.inode_number,
                        FileView {
                            data: spec_dir_append(
                                old(self).fs()@[dir->Ok_0.inode_number].data,
                                id,
                            ),
                            ..old(self).fs()@[dir->Ok_0.inode_number]
                        },
                    )
                    &&& final(self).root() == spec_attach(
                        old(self).root(),
                        spec_names(path@).drop_last(),
                        0,
                        spec_dentry(final(self).fs()@, id, Some(dir->Ok_0.inode_number), 0),
                    )
                    &&& ((forall|i: int|
                        0 <= i < encode_utf8(spec_names(path@).last()).len() ==> encode_utf8(
                            spec_names(path@).last(),
                        )[i] != 0) && spec_first_named(
                        dir->Ok_0.subdirs,
                        spec_names(path@).last(),
                        0,
                    ) == -1 ==> final(self).spec_read(path@) == Ok::<Seq<u8>, Seq<char>>(
                        Seq::empty(),
                    ))
                    &&& final(self).fs().geometry() == old(self).fs().geometry()
                    &&& final(self).fs().spec_free_inodes() == old(self).fs().spec_free_inodes() - 1
                    &&& final(self).fs().spec_free_blocks() == old(self).fs().spec_free_blocks() - (
                    CAFS::<D>::spec_blocks_for(
                        CAFS::<D>::spec_dir_grown(
                            old(self).fs()@[dir->Ok_0.inode_number].data.len(),
                        ) as u64,
                    ) - old(self).fs().spec_used_blocks(dir->Ok_0.inode_number))
                    &&& final(self).fs().spec_held() == spec_held_with(
                        spec_held_with(
                            spec_held_with(old(self).fs().spec_held(), id),
                            dir->Ok_0.inode_number,
                        ),
                        id,
                    )
                    &&& final(self).fs().spec_used_blocks(id) == 0
                    &&& final(self).fs().spec_size(id) == 0
                    &&& final(self).fs().spec_size(dir->Ok_0.inode_number) == CAFS::<
                        D,
                    >::spec_dir_grown(old(self).fs()@[dir->Ok_0.inode_number].data.len())
                    &&& final(self).fs().geometry().resized(
                        old(self).fs().disk(),
                        final(self).fs().disk(),
                        dir->Ok_0.inode_number as int,
                    )
                    &&& final(self).fs().geometry().took_lowest(
                        old(self).fs().disk(),
                        final(self).fs().disk(),
                        dir->Ok_0.inode_number as int,
                    )
                    &&& final(self).fs().spec_written(
                        dir->Ok_0.inode_number,
                        spec_dir_append(old(self).fs()@[dir->Ok_0.inode_number].data, id),
                    )
                    &&& final(self).fs().spec_used_blocks(dir->Ok_0.inode_number)
                        == CAFS::<D>::spec_blocks_for(
                        CAFS::<D>::spec_dir_grown(
                            old(self).fs()@[dir->Ok_0.inode_number].data.len(),
                        ) as u64,
                    )
                    &&& forall|i: u64|
                        old(self).fs().spec_exists(i) && i != dir->Ok_0.inode_number ==> final(self).fs().spec_used_blocks(i) == old(self).fs().spec_used_blocks(i)
                },
                Err(Error::NotExist(s)) => {
                    &&& old(self).spec_lookup(spec_names(path@).drop_last()) == Err::<
                        DirEntryView,
                        Seq<char>,
                    >(s@)
                    &&& final(self).fs() == old(self).fs()
                    &&& final(self).fs()@ == old(self).fs()@
                    &&& final(self).root() == old(self).root()
                },
                Err(_) => false,
            },
    {
        let Path { name, parents } = parse_path(path);
        let ghost names = spec_names(path@);
        let ghost files = self.primary_partition@;
        proof {
            assert(spec_texts(parents@).push(name@) == names);
            assert(names.drop_last() =~= spec_texts(parents@));
            assert(names.last() == name@);
        }
        let number = match self.dentry_cache.find(&parents) {
            Ok(dir) => dir.inode_number(),
            Err(e) => {
                return Err(e);
            },
        };
        proof {
            lemma_find_ok(self.root(), spec_texts(parents@), 0, files);
        }
        let ghost start = self.primary_partition;
        proof {
            assert(start.spec_exists(number));
            assert(old(self).spec_can_create(number, name@));
        }
        let inode_meta = self.primary_partition.create(number, name);
        let id = inode_meta.inode_number();
        proof {
            assert(!files.dom().contains(id)) by {
                assert(!start.spec_exists(id));
            }
            assert forall|i: u64| i < id implies files.dom().contains(i) by {
                assert(start.spec_exists(i));
            }
            lemma_lowest_free(files, id);
            assert(self.primary_partition@.dom().contains(id));
            assert(self.primary_partition.spec_exists(id));
        }
        let ghost made = self.primary_partition@;
        proof {
            lemma_held_again(
                spec_held_with(
                    spec_held_with(start.spec_held(), id),
                    number,
                ),
                id,
            );
        }
        let child = DirEntry::new(Some(number), id, &mut self.primary_partition);
        let ghost before = self.dentry_cache@;
        self.dentry_cache.attach(&parents, 0, child);
        proof {
            assert forall|i: u64| files.dom().contains(i) implies made.dom().contains(i) by {}
            lemma_tree_ok_more(before, files, made);
            lemma_dentry_ok(made, id, Some(number), 0);
            lemma_attach_ok(before, spec_texts(parents@), 0, child@, made);
            let dir = spec_find(before, spec_texts(parents@), 0)->Ok_0;
            if (forall|i: int|
                0 <= i < encode_utf8(names.last()).len() ==> encode_utf8(names.last())[i] != 0)
                && spec_first_named(dir.subdirs, names.last(), 0) == -1 {
                lemma_name_round_trip(names.last());
                assert(child@.name == names.last());
                lemma_attached_is_found(before, spec_texts(parents@), 0, child@);
                assert(spec_texts(parents@).push(child@.name) =~= names);
                assert(id != number);
                assert(self.spec_read(path@) == Ok::<Seq<u8>, Seq<char>>(Seq::empty()));
            }
        }
        Ok(())
    }

    /// Whether a file can be created at `path`: where the directory that
    /// the path leads to is found, it can take a file of that name.
    pub fn can_create(&mut self, path: &str) -> (r: bool)
        requires
            old(self).wf(),
            spec_has_slash(path@),
        ensures
            final(self).wf(),
            final(self).fs()@ == old(self).fs()@,
            final(self).root() == old(self).root(),
            final(self).fs().spec_same_disk(&old(self).fs()),
            r == (old(self).spec_lookup(spec_names(path@).drop_last()) is Ok ==> old(self).spec_can_create(
                old(self).spec_lookup(spec_names(path@).drop_last())->Ok_0.inode_number,
                spec_names(path@).last(),
            )),
            final(self).fs().spec_held() == match old(self).spec_lookup(
                spec_names(path@).drop_last(),
            ) {
                Ok(dir) => if old(self).fs().spec_free_inodes() > 0 && encode_utf8(
                    spec_names(path@).last(),
                ).len() <= crate::cafs::NAME_LENGTH_LIMIT {
                    spec_held_with(old(self).fs().spec_held(), dir.inode_number)
                } else {
                    old(self).fs().spec_held()
                },
                Err(_) => old(self).fs().spec_held(),
            },
    {
        let Path { name, parents } = parse_path(path);
        let ghost names = spec_names(path@);
        let ghost files = self.primary_partition@;
        proof {
            assert(names.drop_last() =~= spec_texts(parents@));
            assert(names.last() == name@);
        }
        let number = match self.dentry_cache.find(&parents) {
            Ok(dir) => dir.inode_number(),
            Err(_) => {
                return true;
            },
        };
        proof {
            lemma_find_ok(self.root(), spec_texts(parents@), 0, files);
            assert(self.primary_partition.spec_exists(number));
        }
        self.primary_partition.can_create(number, &name)
    }

    /// Whether contents of `len` bytes can be written to `path`: where
    /// the file at the path is found, it can take the bytes.
    pub fn can_write(&mut self, path: &str, len: usize) -> (r: bool)
        requires
            old(self).wf(),
            spec_has_slash(path@),
        ensures
            final(self).wf(),
            final(self).fs()@ == old(self).fs()@,
            final(self).root() == old(self).root(),
            final(self).fs().spec_same_disk(&old(self).fs()),
            r == (old(self).spec_lookup(spec_names(path@)) is Ok ==> old(self).spec_can_write(
                old(self).spec_lookup(spec_names(path@))->Ok_0.inode_number,
                len as nat,
            )),
            final(self).fs().spec_held() == match old(self).spec_lookup(spec_names(path@)) {
                Ok(d) => if len <= L4_MAX {
                    spec_held_with(old(self).fs().spec_held(), d.inode_number)
                } else {
                    old(self).fs().spec_held()
                },
                Err(_) => old(self).fs().spec_held(),
            },
    {
        let p = parse_path(path);
        let ghost names = spec_names(path@);
        let ghost files = self.primary_partition@;
        let mut path = p.parents;
        let ghost parents = path@;
        path.push(p.name);
        proof {
            assert(spec_texts(path@) =~= spec_texts(parents).push(p.name@));
        }
        let number = match self.dentry_cache.find(&path) {
            Ok(d) => d.inode_number(),
            Err(_) => {
                return true;
            },
        };
        proof {
            lemma_find_ok(self.root(), names, 0, files);
            assert(self.primary_partition.spec_exists(number));
        }
        self.primary_partition.can_write(number, len)
    }

    /// Takes the path `path` apart at its slashes.
    pub fn parse_path(path: &str) -> (p: Path)
        requires
            spec_has_slash(path@),
        ensures
            p@ == spec_names(path@),
    {
        parse_path(path)
    }

    /// Flushes the filesystem, gives it up and hands out its device, which
    /// holds the filesystem as it is and can be mounted again.
    pub fn into_device(self) -> (d: D)
        requires
            self.wf(),
        ensures
            blocks_wf(d.contents()),
            spec_formatted(d.contents()),
            d.contents() == self.fs().disk(),
            spec_geometry_of(SuperBlock::spec_decode(d.contents()[0])) == self.fs().geometry(),
    {
        let mut fs = self.primary_partition;
        fs.flush();
        fs.into_device()
    }

    /// Opens nothing: files are read and written by path.
    pub fn open() {
    }

    /// The contents of the file at `path`.
    pub fn read_unstable(&mut self, path: &str) -> (r: Result<Vec<u8>, Error>)
        requires
            old(self).wf(),
            spec_has_slash(path@),
        ensures
            final(self).wf(),
            final(self).fs()@ == old(self).fs()@,
            final(self).root() == old(self).root(),
            final(self).fs().spec_same_disk(&old(self).fs()),
            match r {
                Ok(data) => old(self).spec_read(path@) == Ok::<Seq<u8>, Seq<char>>(data@),
                Err(Error::NotExist(s)) => old(self).spec_read(path@) == Err::<Seq<u8>, Seq<char>>(
                    s@,
                ),
                Err(_) => false,
            },
            final(self).fs().spec_held() == match old(self).spec_lookup(spec_names(path@)) {
                Ok(d) => spec_held_with(old(self).fs().spec_held(), d.inode_number),
                Err(_) => old(self).fs().spec_held(),
            },
    {
        let p = parse_path(path);
        let ghost names = spec_names(path@);
        let ghost files = self.primary_partition@;
        let mut path = p.parents;
        let ghost parents = path@;
        path.push(p.name);
        proof {
            assert(spec_texts(path@) =~= spec_texts(parents).push(p.name@));
        }
        let number = match self.dentry_cache.find(&path) {
            Ok(d) => d.inode_number(),
            Err(e) => {
                return Err(e);
            },
        };
        proof {
            lemma_find_ok(self.root(), names, 0, files);
        }
        Ok(self.primary_partition.data(number))
    }

    /// Makes `contents` the contents of the file at `path`. Reading the
    /// path afterwards gives `contents`; the blocks of the file and of
    /// the data area change as the filesystem's own `write` says.
    pub fn write(&mut self, path: &str, contents: &Vec<u8>) -> (r: Result<(), Error>)
        requires
            old(self).wf(),
            spec_has_slash(path@),
            old(self).spec_lookup(spec_names(path@)) is Ok ==> old(self).spec_can_write(
                old(self).spec_lookup(spec_names(path@))->Ok_0.inode_number,
                contents@.len(),
            ),
        ensures
            final(self).wf(),
            final(self).root() == old(self).root(),
            match r {
                Ok(_) => {
                    let d = old(self).spec_lookup(spec_names(path@));
                    &&& d is Ok
                    &&& final(self).fs()@ == old(self).fs()@.insert(
                        d->Ok_0.inode_number,
                        FileView {
                            data: contents@,
                            ..old(self).fs()@[d->Ok_0.inode_number]
                        },
                    )
                    &&& final(self).spec_read(path@) == Ok::<Seq<u8>, Seq<char>>(contents@)
                    &&& final(self).fs().geometry() == old(self).fs().geometry()
                    &&& final(self).fs().spec_size(d->Ok_0.inode_number) == contents@.len()
                    &&& final(self).fs().geometry().resized(
                        old(self).fs().disk(),
                        final(self).fs().disk(),
                        d->Ok_0.inode_number as int,
                    )
                    &&& final(self).fs().geometry().took_lowest(
                        old(self).fs().disk(),
                        final(self).fs().disk(),
                        d->Ok_0.inode_number as int,
                    )
                    &&& final(self).fs().spec_written(d->Ok_0.inode_number, contents@)
                    &&& final(self).fs().spec_used_blocks(d->Ok_0.inode_number)
                        == CAFS::<D>::spec_blocks_for(contents@.len() as u64)
                    &&& final(self).fs().spec_free_blocks() == old(self).fs().spec_free_blocks()
                        + old(self).fs().spec_used_blocks(d->Ok_0.inode_number)
                        - CAFS::<D>::spec_blocks_for(contents@.len() as u64)
                    &&& final(self).fs().spec_df().1 == old(self).fs().spec_df().1
                    &&& final(self).fs().spec_df().0 == old(self).fs().spec_df().0 + 512 * (
                    CAFS::<D>::spec_blocks_for(old(self).fs().spec_size(d->Ok_0.inode_number))
                        - CAFS::<D>::spec_blocks_for(contents@.len() as u64))
                    &&& final(self).fs().spec_others_kept(&old(self).fs(), d->Ok_0.inode_number)
                    &&& final(self).fs().spec_held() == spec_held_with(
                        old(self).fs().spec_held(),
                        d->Ok_0.inode_number,
                    )
                },
                Err(Error::NotExist(s)) => {
                    &&& old(self).spec_lookup(spec_names(path@)) == Err::<DirEntryView, Seq<char>>(
                        s@,
                    )
                    &&& final(self).fs() == old(self).fs()
                    &&& final(self).fs()@ == old(self).fs()@
                },
                Err(_) => false,
            },
    {
        let p = parse_path(path);
        let ghost names = spec_names(path@);
        let ghost files = self.primary_partition@;
        let mut path = p.parents;
        let ghost parents = path@;
        path.push(p.name);
        proof {
            assert(spec_texts(path@) =~= spec_texts(parents).push(p.name@));
        }
        let number = match self.dentry_cache.find(&path) {
            Ok(d) => d.inode_number(),
            Err(e) => {
                return Err(e);
            },
        };
        proof {
            lemma_find_ok(self.root(), names, 0, files);
        }
        self.primary_partition.write(number, contents);
        proof {
            let after = self.primary_partition@;
            assert forall|i: u64| files.dom().contains(i) implies after.dom().contains(i) by {}
            lemma_tree_ok_more(self.root(), files, after);
        }
        Ok(())
    }
}

} // verus!
