//! What the archive builder is told about a file tree: one entry per file,
//! with the metadata that a header records, and the table of inodes that
//! finds hard links.
use std::collections::HashMap;
use vstd::prelude::*;
use vstd::std_specs::hash::*;

verus! {

broadcast use vstd::std_specs::hash::group_hash_axioms;

/// The kind of a file, as the file system reports it.
#[derive(Clone, Copy, Debug, PartialEq, Eq, Structural)]
pub enum FileKind {
    Regular,
    Symlink,
    CharDevice,
    BlockDevice,
    Directory,
    Fifo,
    /// Anything else, such as a socket: it has no place in an archive.
    Other,
}

/// The metadata of one file, as plain numbers.
#[derive(Clone, Copy, Debug, PartialEq, Eq, Structural)]
pub struct Metadata {
    pub kind: FileKind,
    /// File mode; only its permission bits reach the archive.
    pub mode: u32,
    pub uid: u32,
    pub gid: u32,
    /// Length of the file in bytes.
    pub size: u64,
    /// Modification time in seconds since the epoch.
    pub mtime: i64,
    /// The device that holds the file.
    pub device: u64,
    /// The inode of the file on that device.
    pub inode: u64,
    /// For a device node, the device that it stands for.
    pub rdev: u64,
}

/// One file of the tree to archive, and below it, for a directory, the files
/// that it holds in the order in which they are to be archived.
#[derive(Debug, PartialEq, Eq)]
pub struct FsEntry {
    /// Path of the file as the archive is to name it.
    pub name: Vec<u8>,
    pub meta: Metadata,
    /// Name of the owning user; empty where it is unknown.
    pub owner: Vec<u8>,
    /// Name of the owning group; empty where it is unknown.
    pub group: Vec<u8>,
    /// For a symbolic link, what it points to.
    pub link_target: Vec<u8>,
    /// For a regular file, what it holds.
    pub content: Vec<u8>,
    /// For a directory, its entries.
    pub children: Vec<FsEntry>,
}

/// No byte of `s` is NUL.
pub open spec fn no_nul(s: Seq<u8>) -> bool {
    forall|i: int| 0 <= i < s.len() ==> #[trigger] s[i] != 0
}

impl FsEntry {
    /// The entry describes a file as a file system holds it: neither its
    /// path nor its link target holds a NUL byte, and a regular file's
    /// content is as long as its metadata states.
    pub open spec fn well_formed(&self) -> bool {
        &&& no_nul(self.name@)
        &&& no_nul(self.link_target@)
        &&& self.meta.kind == FileKind::Regular ==> self.content@.len() == self.meta.size
    }

    /// Whether the entry is well formed.
    pub fn is_well_formed(&self) -> (well_formed: bool)
        ensures
            well_formed == self.well_formed(),
    {
        if !has_no_nul(self.name.as_slice()) || !has_no_nul(self.link_target.as_slice()) {
            return false;
        }
        match self.meta.kind {
            FileKind::Regular => self.content.len() as u64 == self.meta.size,
            _ => true,
        }
    }
}

/// Whether no byte of `bytes` is NUL.
pub fn has_no_nul(bytes: &[u8]) -> (clean: bool)
    ensures
        clean == no_nul(bytes@),
{
    let mut i: usize = 0;
    while i < bytes.len()
        invariant
            i <= bytes@.len(),
            forall|j: int| 0 <= j < i ==> bytes@[j] != 0,
        decreases bytes.len() - i,
    {
        if bytes[i] == 0 {
            return false;
        }
        i = i + 1;
    }
    true
}

/// The key under which the table holds a file: device and inode in one
/// number.
pub open spec fn inode_key(device: u64, inode: u64) -> u128 {
    ((device as u128) * 0x1_0000_0000_0000_0000u128 + inode as u128) as u128
}

/// The files seen so far in one build, by device and inode, each with the
/// path under which the archive first held it.
pub struct InodeMap {
    paths: HashMap<u128, Vec<u8>>,
}

impl View for InodeMap {
    type V = Map<(u64, u64), Seq<u8>>;

    closed spec fn view(&self) -> Map<(u64, u64), Seq<u8>> {
        Map::new(
            |k: (u64, u64)| self.paths@.contains_key(inode_key(k.0, k.1)),
            |k: (u64, u64)| self.paths@[inode_key(k.0, k.1)]@,
        )
    }
}

impl InodeMap {
    /// A table that holds no file.
    pub fn new() -> (map: InodeMap)
        ensures
            map@ == Map::<(u64, u64), Seq<u8>>::empty(),
    {
        let map = InodeMap { paths: HashMap::new() };
        assert(map@ =~= Map::<(u64, u64), Seq<u8>>::empty());
        map
    }

    /// The path recorded for the file, if the table holds it.
    pub fn get(&self, device: u64, inode: u64) -> (path: Option<&Vec<u8>>)
        ensures
            match path {
                Some(p) => self@.contains_key((device, inode)) && p@ == self@[(device, inode)],
                None => !self@.contains_key((device, inode)),
            },
    {
        let key: u128 = (device as u128) * 0x1_0000_0000_0000_0000u128 + inode as u128;
        self.paths.get(&key)
    }

    /// Whether the table holds the file.
    pub fn contains(&self, device: u64, inode: u64) -> (held: bool)
        ensures
            held == self@.contains_key((device, inode)),
    {
        let key: u128 = (device as u128) * 0x1_0000_0000_0000_0000u128 + inode as u128;
        self.paths.contains_key(&key)
    }

    /// Records `path` for the file, in place of any path recorded before.
    pub fn insert(&mut self, device: u64, inode: u64, path: Vec<u8>)
        ensures
            final(self)@ == old(self)@.insert((device, inode), path@),
    {
        let key: u128 = (device as u128) * 0x1_0000_0000_0000_0000u128 + inode as u128;
        let ghost recorded = path@;
        self.paths.insert(key, path);
        proof {
            assert forall|k: (u64, u64)| inode_key(k.0, k.1) == key implies k == (
                device,
                inode,
            ) by {}
            assert(self@ =~= old(self)@.insert((device, inode), recorded));
        }
    }
}

} // verus!
