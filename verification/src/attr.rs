//! Attribute synthesis: complete attribute records from an object's size and
//! kind, plus the root directory's fixed attribute record.

use vstd::prelude::*;

verus! {

/// The kinds of entries this filesystem distinguishes: the root directory and
/// regular files materialized from object keys.
#[derive(Clone, Copy, PartialEq, Eq, Structural, Debug)]
pub enum FileKind {
    Directory,
    RegularFile,
}

/// A complete attribute record; every field is populated, none is optional.
#[derive(Clone, Copy, PartialEq, Eq, Structural, Debug)]
pub struct FileAttr {
    pub ino: u64,
    pub size: u64,
    pub blocks: u64,
    pub atime: u64,
    pub mtime: u64,
    pub ctime: u64,
    pub crtime: u64,
    pub kind: FileKind,
    pub perm: u16,
    pub nlink: u32,
    pub uid: u32,
    pub gid: u32,
    pub rdev: u32,
    pub flags: u32,
    pub blksize: u32,
}

/// The inode number reserved for the root directory.
pub const ROOT_INO: u64 = 1;

/// Owner defaults applied to every entry.
pub const DEFAULT_UID: u32 = 501;

pub const DEFAULT_GID: u32 = 20;

/// Block size reported for every entry.
pub const BLOCK_SIZE: u32 = 512;

/// Permission mask for synthesized regular files.
pub const FILE_PERM: u16 = 0o644;

/// Permission mask for the root directory.
pub const DIR_PERM: u16 = 0o755;

/// How long (in seconds) a consumer may cache a reply before re-querying.
pub const TTL_SECS: u64 = 1;

/// The attribute record synthesized for a non-root entry: size and kind from
/// the backend's metadata, everything else defaulted (fixed owner, fixed
/// permission mask, epoch timestamps).
pub open spec fn attr_spec(ino: u64, size: u64, kind: FileKind) -> FileAttr {
    FileAttr {
        ino,
        size,
        blocks: 1,
        atime: 0,
        mtime: 0,
        ctime: 0,
        crtime: 0,
        kind,
        perm: FILE_PERM,
        nlink: 1,
        uid: DEFAULT_UID,
        gid: DEFAULT_GID,
        rdev: 0,
        flags: 0,
        blksize: BLOCK_SIZE,
    }
}

/// The root directory's fixed attribute record.
pub open spec fn root_attr_spec() -> FileAttr {
    FileAttr {
        ino: ROOT_INO,
        size: 0,
        blocks: 0,
        atime: 0,
        mtime: 0,
        ctime: 0,
        crtime: 0,
        kind: FileKind::Directory,
        perm: DIR_PERM,
        nlink: 2,
        uid: DEFAULT_UID,
        gid: DEFAULT_GID,
        rdev: 0,
        flags: 0,
        blksize: BLOCK_SIZE,
    }
}

/// Build the attribute record for a non-root entry.
pub fn make_attr(ino: u64, size: u64, kind: FileKind) -> (r: FileAttr)
    ensures
        r == attr_spec(ino, size, kind),
{
    FileAttr {
        ino,
        size,
        blocks: 1,
        atime: 0,
        mtime: 0,
        ctime: 0,
        crtime: 0,
        kind,
        perm: FILE_PERM,
        nlink: 1,
        uid: DEFAULT_UID,
        gid: DEFAULT_GID,
        rdev: 0,
        flags: 0,
        blksize: BLOCK_SIZE,
    }
}

/// Build the root directory's fixed attribute record.
pub fn root_attr() -> (r: FileAttr)
    ensures
        r == root_attr_spec(),
{
    FileAttr {
        ino: ROOT_INO,
        size: 0,
        blocks: 0,
        atime: 0,
        mtime: 0,
        ctime: 0,
        crtime: 0,
        kind: FileKind::Directory,
        perm: DIR_PERM,
        nlink: 2,
        uid: DEFAULT_UID,
        gid: DEFAULT_GID,
        rdev: 0,
        flags: 0,
        blksize: BLOCK_SIZE,
    }
}

} // verus!
