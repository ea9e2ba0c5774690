use mfs::attr::{make_attr, root_attr, FileKind};
use mfs::fs::{FsError, MFS};
use mfs::inode::Inode;
use mfs::listing::ChildItem;

fn child(name: &str, size: u64) -> ChildItem {
    ChildItem { name: String::from(name), size }
}

fn fresh() -> MFS {
    MFS::new(String::from("bucket"))
}

#[test]
fn root_attributes_are_fixed() {
    let fs = fresh();
    let a = fs.getattr(1).unwrap();
    assert_eq!(a, root_attr());
    assert_eq!(a.ino, 1);
    assert_eq!(a.size, 0);
    assert_eq!(a.blocks, 0);
    assert_eq!(a.kind, FileKind::Directory);
    assert_eq!(a.perm, 0o755);
    assert_eq!(a.nlink, 2);
    assert_eq!(a.uid, 501);
    assert_eq!(a.gid, 20);
    assert_eq!(a.blksize, 512);
}

#[test]
fn getattr_unknown_inode_is_not_found() {
    let fs = fresh();
    assert_eq!(fs.getattr(2), Err(FsError::NotFound));
    assert_eq!(fs.getattr(99), Err(FsError::NotFound));
}

#[test]
fn synthesized_attributes_are_complete() {
    let a = make_attr(7, 1234, FileKind::RegularFile);
    assert_eq!(a.ino, 7);
    assert_eq!(a.size, 1234);
    assert_eq!(a.blocks, 1);
    assert_eq!(a.kind, FileKind::RegularFile);
    assert_eq!(a.perm, 0o644);
    assert_eq!(a.nlink, 1);
    assert_eq!(a.uid, 501);
    assert_eq!(a.gid, 20);
    assert_eq!(a.atime, 0);
    assert_eq!(a.mtime, 0);
    assert_eq!(a.ctime, 0);
    assert_eq!(a.crtime, 0);
    assert_eq!(a.rdev, 0);
    assert_eq!(a.flags, 0);
    assert_eq!(a.blksize, 512);
}

#[test]
fn allocator_is_monotonic() {
    let mut fs = fresh();
    assert_eq!(fs.next_ino(), 2);
    assert_eq!(fs.next_ino(), 3);
    assert_eq!(fs.next_ino(), 4);
}

#[test]
fn lookup_before_any_readdir_is_not_found() {
    let fs = fresh();
    assert_eq!(fs.lookup(1, "hello.txt"), Err(FsError::NotFound));
    assert_eq!(fs.lookup(9, "hello.txt"), Err(FsError::NotFound));
}

#[test]
fn lookup_finds_what_readdir_observed() {
    let mut fs = fresh();
    let listing = vec![child("hello.txt", 13), child("data.bin", 4096)];
    fs.readdir(1, 0, &listing).unwrap();
    let a = fs.lookup(1, "hello.txt").unwrap();
    assert_eq!(a.kind, FileKind::RegularFile);
    assert_eq!(a.size, 13);
    let b = fs.lookup(1, "data.bin").unwrap();
    assert_eq!(b.size, 4096);
    // a name never observed stays unknown
    assert_eq!(fs.lookup(1, "missing"), Err(FsError::NotFound));
}

#[test]
fn readdir_rejects_non_directories() {
    let mut fs = fresh();
    let listing = vec![child("a", 1)];
    fs.readdir(1, 0, &listing).unwrap();
    // inode 2 is the regular file just materialized
    assert!(matches!(fs.readdir(2, 0, &Vec::new()), Err(FsError::NotFound)));
    assert!(matches!(fs.readdir(42, 0, &Vec::new()), Err(FsError::NotFound)));
}

#[test]
fn readdir_emits_dot_entries_then_children() {
    let mut fs = fresh();
    let listing = vec![child("a", 3), child("b", 4)];
    let entries = fs.readdir(1, 0, &listing).unwrap();
    assert_eq!(entries.len(), 4);
    assert_eq!(entries[0].name, ".");
    assert_eq!(entries[0].ino, 1);
    assert_eq!(entries[0].offset, 1);
    assert_eq!(entries[0].kind, FileKind::Directory);
    assert_eq!(entries[1].name, "..");
    assert_eq!(entries[1].ino, 1);
    assert_eq!(entries[1].offset, 2);
    assert_eq!(entries[1].kind, FileKind::Directory);
    assert_eq!(entries[2].name, "a");
    assert_eq!(entries[2].ino, 2);
    assert_eq!(entries[2].offset, 3);
    assert_eq!(entries[2].kind, FileKind::RegularFile);
    assert_eq!(entries[3].name, "b");
    assert_eq!(entries[3].ino, 3);
    assert_eq!(entries[3].offset, 4);
}

#[test]
fn readdir_resumes_at_offset() {
    let mut fs = fresh();
    let listing = vec![child("a", 3), child("b", 4)];
    let entries = fs.readdir(1, 2, &listing).unwrap();
    assert_eq!(entries.len(), 2);
    assert_eq!(entries[0].name, "a");
    assert_eq!(entries[1].name, "b");
    let tail = fs.readdir(1, 3, &listing).unwrap();
    assert_eq!(tail.len(), 1);
    assert_eq!(tail[0].name, "b");
    let past = fs.readdir(1, 10, &listing).unwrap();
    assert_eq!(past.len(), 0);
}

#[test]
fn repeated_readdir_reuses_inode_numbers() {
    let mut fs = fresh();
    let listing = vec![child("a", 3), child("b", 4)];
    let first = fs.readdir(1, 0, &listing).unwrap();
    let second = fs.readdir(1, 0, &listing).unwrap();
    assert_eq!(first.len(), second.len());
    for (x, y) in first.iter().zip(second.iter()) {
        assert_eq!(x.name, y.name);
        assert_eq!(x.ino, y.ino);
    }
    assert_eq!(fs.inode_count(), 3);
}

#[test]
fn interleaved_listings_never_leak_inodes() {
    // several listings of the same three children, as serialized by the lock
    let mut fs = fresh();
    let listing = vec![child("a", 1), child("b", 2), child("c", 3)];
    for _ in 0..5 {
        fs.readdir(1, 0, &listing).unwrap();
    }
    assert_eq!(fs.inode_count(), 4);
}

#[test]
fn read_serves_window_of_content() {
    let mut fs = fresh();
    let listing = vec![child("hello.txt", 13)];
    fs.readdir(1, 0, &listing).unwrap();
    let content = b"Hello World!\n";
    assert_eq!(fs.read(2, 0, 13, content).unwrap(), content.to_vec());
    assert_eq!(fs.read(2, 6, 5, content).unwrap(), b"World".to_vec());
    assert_eq!(fs.read(2, 10, 10, content).unwrap(), b"d!\n".to_vec());
}

#[test]
fn read_beyond_end_is_empty_not_error() {
    let mut fs = fresh();
    let listing = vec![child("hello.txt", 13)];
    fs.readdir(1, 0, &listing).unwrap();
    let content = b"Hello World!\n";
    assert_eq!(content.len(), 13);
    let r = fs.read(2, 20, 5, content).unwrap();
    assert_eq!(r.len(), 0);
    let at_end = fs.read(2, 13, 5, content).unwrap();
    assert_eq!(at_end.len(), 0);
}

#[test]
fn read_rejects_directories_and_unknown_inodes() {
    let fs = fresh();
    assert_eq!(fs.read(1, 0, 4, b"abcd"), Err(FsError::NotFound));
    assert_eq!(fs.read(7, 0, 4, b"abcd"), Err(FsError::NotFound));
}

#[test]
fn insert_over_occupied_number_is_invariant_violation() {
    let mut fs = fresh();
    let dup = Inode::new(1, String::from("ghost"), 1, 0, FileKind::RegularFile);
    assert_eq!(fs.insert(dup), Err(FsError::InvariantViolation));
    // the table is untouched: the root still answers
    assert_eq!(fs.getattr(1).unwrap(), root_attr());
}

#[test]
fn insert_fresh_number_succeeds() {
    let mut fs = fresh();
    let ino = fs.next_ino();
    let entry = Inode::new(ino, String::from("made"), 1, 8, FileKind::RegularFile);
    assert_eq!(fs.insert(entry), Ok(()));
    let a = fs.getattr(ino).unwrap();
    assert_eq!(a.size, 8);
    assert_eq!(a.kind, FileKind::RegularFile);
}

#[test]
fn get_or_insert_child_reuses_existing_entry() {
    let mut fs = fresh();
    let first = fs.get_or_insert_child(1, "a", 3).unwrap();
    let again = fs.get_or_insert_child(1, "a", 3).unwrap();
    assert_eq!(first, again);
    let other = fs.get_or_insert_child(1, "b", 4).unwrap();
    assert_ne!(first, other);
    assert_eq!(fs.get_or_insert_child(9, "a", 3), Err(FsError::NotFound));
}

#[test]
fn lookup_by_number_reads_the_table() {
    let mut fs = fresh();
    let ino = fs.get_or_insert_child(1, "a", 3).unwrap();
    let n = fs.lookup_by_number(ino).unwrap();
    assert_eq!(n.ino, ino);
    assert_eq!(n.name, "a");
    assert_eq!(n.parent, 1);
    assert!(fs.lookup_by_number(99).is_none());
}
