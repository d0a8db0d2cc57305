//! What a filesystem offers to the layer above it.
use vstd::prelude::*;

verus! {

/// The kind of object an inode stands for.
#[derive(PartialEq, Eq, Structural, Copy, Clone, Debug)]
pub enum InodeType {
    File,
    Dir,
}

impl InodeType {
    /// The 64-bit tag by which the type is stored on disk.
    pub open spec fn spec_tag(self) -> u64 {
        match self {
            InodeType::File => 0,
            InodeType::Dir => 1,
        }
    }

    /// The 64-bit tag by which the type is stored on disk.
    pub fn tag(self) -> (t: u64)
        ensures
            t == self.spec_tag(),
    {
        match self {
            InodeType::File => 0,
            InodeType::Dir => 1,
        }
    }

    /// The type that `tag` stands for, if any.
    pub open spec fn spec_from_tag(tag: u64) -> Option<InodeType> {
        if tag == 0 {
            Some(InodeType::File)
        } else if tag == 1 {
            Some(InodeType::Dir)
        } else {
            None
        }
    }

    /// The type that `tag` stands for, if any.
    pub fn from_tag(tag: u64) -> (t: Option<InodeType>)
        ensures
            t == Self::spec_from_tag(tag),
    {
        if tag == 0 {
            Some(InodeType::File)
        } else if tag == 1 {
            Some(InodeType::Dir)
        } else {
            None
        }
    }
}

/// What every inode can say of itself without touching the disk.
pub trait Inode {
    /// The number of the inode.
    fn inode_number(&self) -> u64;

    /// File or directory.
    fn inode_type(&self) -> InodeType;

    /// Whether the inode is a file.
    fn is_file(&self) -> bool;

    /// The name of the file or directory.
    fn name(&self) -> String;

    /// Size of the contents in bytes.
    fn size(&self) -> u64;
}

} // verus!
