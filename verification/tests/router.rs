use fusible::fs::{FsError, RoutableFilesystem};
use fusible::handler::{DirectoryListing, EntryKind, FixedSizeFile};
use fusible::identity::ItemIdentity;

fn router_with(root: DirectoryListing<FixedSizeFile>) -> RoutableFilesystem<FixedSizeFile> {
    let mut fs = RoutableFilesystem::new();
    fs.set_root(root);
    fs
}

#[test]
fn get_ino_is_idempotent() {
    let mut fs: RoutableFilesystem<FixedSizeFile> = RoutableFilesystem::new();
    let id = ItemIdentity::new();
    assert!(fs.can_mint());
    let first = fs.get_ino_by_identity(id);
    let second = fs.get_ino_by_identity(id);
    assert_eq!(first, second);
    assert_eq!(first, 2);
}

#[test]
fn distinct_identities_get_distinct_inodes() {
    let mut fs: RoutableFilesystem<FixedSizeFile> = RoutableFilesystem::new();
    let a = ItemIdentity::new();
    let b = ItemIdentity::new();
    if a == b {
        // A random collision; the two tokens stand for the same entry.
        return;
    }
    let ino_a = fs.get_ino_by_identity(a);
    let ino_b = fs.get_ino_by_identity(b);
    assert_ne!(ino_a, ino_b);
    assert_eq!(fs.get_ino_by_identity(a), ino_a);
    assert_eq!(fs.get_ino_by_identity(b), ino_b);
}

#[test]
fn init_always_succeeds() {
    let mut fs: RoutableFilesystem<FixedSizeFile> = RoutableFilesystem::new();
    assert_eq!(fs.init(), Ok(()));
}

#[test]
fn unsupported_requests_get_the_uniform_reply() {
    let fs: RoutableFilesystem<FixedSizeFile> = RoutableFilesystem::new();
    assert_eq!(fs.unsupported(), FsError::NotSupported);
}

#[test]
fn getattr_of_root_is_a_directory() {
    let fs = router_with(DirectoryListing::new());
    let attr = fs.getattr(1).unwrap();
    assert_eq!(attr.ino, 1);
    assert_eq!(attr.kind, EntryKind::Directory);
    assert_eq!(attr.size, 4096);
    assert_eq!(attr.blocks, 8);
    assert_eq!(attr.perm, 0o755);
    assert_eq!(attr.nlink, 2);
}

#[test]
fn readdir_of_root_starts_with_dot_and_dotdot() {
    let mut fs = router_with(DirectoryListing::new());
    assert!(fs.can_readdir(1));
    let entries = fs.readdir(1, 0).unwrap();
    assert_eq!(entries.len(), 2);
    assert_eq!(entries[0].name, ".");
    assert_eq!(entries[0].ino, 1);
    assert_eq!(entries[0].kind, EntryKind::Directory);
    assert_eq!(entries[0].next_offset, 1);
    assert_eq!(entries[1].name, "..");
    assert_eq!(entries[1].ino, 1);
    assert_eq!(entries[1].kind, EntryKind::Directory);
    assert_eq!(entries[1].next_offset, 2);
}

#[test]
fn readdir_lists_children_in_order_and_paginates() {
    let root = DirectoryListing::new()
        .add_file("a", FixedSizeFile::new(1))
        .add_file("b", FixedSizeFile::new(2))
        .add_file("c", FixedSizeFile::new(3));
    let mut fs = router_with(root);

    let all = fs.readdir(1, 0).unwrap();
    assert_eq!(all.len(), 5);
    let names: Vec<&str> = all.iter().map(|e| e.name.as_str()).collect();
    assert_eq!(names, [".", "..", "a", "b", "c"]);
    for (i, e) in all.iter().enumerate() {
        assert_eq!(e.next_offset, (i + 1) as u64);
    }
    assert_eq!(all[2].kind, EntryKind::RegularFile);

    let rest = fs.readdir(1, 2).unwrap();
    assert_eq!(rest.len(), 3);
    let rest_names: Vec<&str> = rest.iter().map(|e| e.name.as_str()).collect();
    assert_eq!(rest_names, ["a", "b", "c"]);
    assert_eq!(rest[0].next_offset, 3);

    let beyond = fs.readdir(1, 10).unwrap();
    assert!(beyond.is_empty());
}

#[test]
fn readdir_resumes_at_the_emitted_cursor() {
    let root = DirectoryListing::new()
        .add_file("a", FixedSizeFile::new(1))
        .add_file("b", FixedSizeFile::new(2));
    let mut fs = router_with(root);
    let all = fs.readdir(1, 0).unwrap();
    // Resuming at any entry's cursor yields exactly the entries after it.
    let resumed = fs.readdir(1, all[1].next_offset).unwrap();
    assert_eq!(resumed.len(), 2);
    assert_eq!(resumed[0].name, "a");
    assert_eq!(resumed[0].ino, all[2].ino);
}

#[test]
fn lookup_then_getattr_agree() {
    let root = DirectoryListing::new().add_file("a", FixedSizeFile::new(1000));
    let mut fs = router_with(root);
    assert!(fs.can_mint());
    let looked = fs.lookup(1, "a").unwrap();
    assert_eq!(looked.kind, EntryKind::RegularFile);
    assert_eq!(looked.size, 1000);
    let attr = fs.getattr(looked.ino).unwrap();
    assert_eq!(attr.size, looked.size);
    assert_eq!(attr.kind, looked.kind);
    assert_eq!(attr, looked);
}

#[test]
fn lookup_misses_and_kind_mismatches_fail() {
    let root = DirectoryListing::new().add_file("a", FixedSizeFile::new(10));
    let mut fs = router_with(root);
    assert_eq!(fs.lookup(1, "does-not-exist"), Err(FsError::NoSuchEntry));
    let file_ino = fs.lookup(1, "a").unwrap().ino;
    assert_eq!(fs.lookup(file_ino, "anything"), Err(FsError::NotADirectory));
    assert_eq!(fs.getattr(999999), Err(FsError::NoSuchEntry));
    assert_eq!(fs.lookup(999999, "a"), Err(FsError::NoSuchEntry));
    assert!(fs.readdir(999999, 0).is_err());
    match fs.readdir(file_ino, 0) {
        Err(e) => assert_eq!(e, FsError::NotADirectory),
        Ok(_) => panic!("readdir of a file must fail"),
    }
}

#[test]
fn block_count_truncates_at_512_byte_units() {
    let root = DirectoryListing::new()
        .add_file("small", FixedSizeFile::new(1000))
        .add_file("exact", FixedSizeFile::new(1024))
        .add_file("empty", FixedSizeFile::new(0));
    let mut fs = router_with(root);
    let small = fs.lookup(1, "small").unwrap();
    assert_eq!(small.size, 1000);
    assert_eq!(small.blocks, 1);
    let exact = fs.lookup(1, "exact").unwrap();
    assert_eq!(exact.size, 1024);
    assert_eq!(exact.blocks, 2);
    let empty = fs.lookup(1, "empty").unwrap();
    assert_eq!(empty.size, 0);
    assert_eq!(empty.blocks, 0);
    assert_eq!(empty.nlink, 1);
    assert_eq!(empty.perm, 0o755);
}

#[test]
fn block_count_of_the_largest_size() {
    let root = DirectoryListing::new().add_file("huge", FixedSizeFile::new(u64::MAX));
    let mut fs = router_with(root);
    let huge = fs.lookup(1, "huge").unwrap();
    assert_eq!(huge.size, u64::MAX);
    assert_eq!(huge.blocks, u64::MAX / 512);
}

#[test]
fn nested_directories_track_their_parent() {
    let sub = DirectoryListing::new().add_file("f", FixedSizeFile::new(64));
    let root = DirectoryListing::new().add_dir("sub", sub);
    let mut fs = router_with(root);

    let sub_attr = fs.lookup(1, "sub").unwrap();
    assert_eq!(sub_attr.kind, EntryKind::Directory);

    // The subdirectory was recorded under its inode: getattr resolves it,
    // and its listing names the parent under "..".
    let again = fs.getattr(sub_attr.ino).unwrap();
    assert_eq!(again, sub_attr);
    let entries = fs.readdir(sub_attr.ino, 0).unwrap();
    assert_eq!(entries.len(), 3);
    assert_eq!(entries[0].name, ".");
    assert_eq!(entries[0].ino, sub_attr.ino);
    assert_eq!(entries[1].name, "..");
    assert_eq!(entries[1].ino, 1);
    assert_eq!(entries[2].name, "f");

    let f_attr = fs.lookup(sub_attr.ino, "f").unwrap();
    assert_eq!(f_attr.size, 64);
    assert_eq!(f_attr.ino, entries[2].ino);
}

#[test]
fn readdir_and_lookup_mint_consistently() {
    let root = DirectoryListing::new()
        .add_file("a", FixedSizeFile::new(1))
        .add_file("b", FixedSizeFile::new(2));
    let mut fs = router_with(root);
    let entries = fs.readdir(1, 0).unwrap();
    let a_ino = entries[2].ino;
    let b_ino = entries[3].ino;
    assert_ne!(a_ino, b_ino);
    // Looking the children up afterwards reuses the inodes the listing minted.
    assert_eq!(fs.lookup(1, "a").unwrap().ino, a_ino);
    assert_eq!(fs.lookup(1, "b").unwrap().ino, b_ino);
    // And listing again re-emits the very same inodes.
    let again = fs.readdir(1, 0).unwrap();
    assert_eq!(again[2].ino, a_ino);
    assert_eq!(again[3].ino, b_ino);
}

#[test]
fn cycle_file_end_to_end() {
    // A tree whose root contains one file "cycle" of size 1 GiB, as a host
    // would build it before mounting.
    let root = DirectoryListing::new().add_file("cycle", FixedSizeFile::new(1073741824));
    let mut fs = router_with(root);

    let attr = fs.lookup(1, "cycle").unwrap();
    assert_eq!(attr.size, 1073741824);
    assert_eq!(attr.kind, EntryKind::RegularFile);

    let entries = fs.readdir(1, 0).unwrap();
    let names: Vec<&str> = entries.iter().map(|e| e.name.as_str()).collect();
    assert_eq!(names, [".", "..", "cycle"]);
}
