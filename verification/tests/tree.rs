use fusible::handler::{DirectoryListing, EntryKind, File, FixedSizeFile, PathHandler};
use fusible::identity::ItemIdentity;

#[test]
fn identities_are_generated() {
    // Two fresh identities; equality is well-defined (and collisions are
    // overwhelmingly unlikely, though not impossible).
    let a = ItemIdentity::new();
    let b = a;
    assert_eq!(a, b);
}

#[test]
fn file_reports_its_size() {
    let f: File<FixedSizeFile> = File::from_impl(FixedSizeFile::new(1234));
    assert_eq!(f.get_size(), 1234);
}

#[test]
fn empty_directory_lists_nothing() {
    let d: DirectoryListing<FixedSizeFile> = DirectoryListing::new();
    assert_eq!(d.child_count(), 0);
    assert!(d.listdir().is_empty());
}

#[test]
fn add_file_appends_in_listing_order() {
    let d = DirectoryListing::new()
        .add_file("a", FixedSizeFile::new(1))
        .add_file("b", FixedSizeFile::new(2))
        .add_file("c", FixedSizeFile::new(3));
    let listing = d.listdir();
    assert_eq!(listing.len(), 3);
    assert_eq!(listing[0].0, "a");
    assert_eq!(listing[1].0, "b");
    assert_eq!(listing[2].0, "c");
    for (_, child) in &listing {
        assert_eq!(child.get_type(), EntryKind::RegularFile);
    }
}

#[test]
fn duplicate_name_last_write_wins() {
    let d = DirectoryListing::new()
        .add_file("a", FixedSizeFile::new(1))
        .add_file("b", FixedSizeFile::new(2))
        .add_file("a", FixedSizeFile::new(9));
    let listing = d.listdir();
    assert_eq!(listing.len(), 2);
    assert_eq!(listing[0].0, "a");
    match &listing[0].1 {
        PathHandler::File(f) => assert_eq!(f.get_size(), 9),
        PathHandler::Directory(_) => panic!("expected a file"),
    }
}

#[test]
fn add_dir_attaches_a_directory_child() {
    let sub = DirectoryListing::new().add_file("f", FixedSizeFile::new(7));
    let d: DirectoryListing<FixedSizeFile> = DirectoryListing::new().add_dir("sub", sub);
    let listing = d.listdir();
    assert_eq!(listing.len(), 1);
    assert_eq!(listing[0].0, "sub");
    assert_eq!(listing[0].1.get_type(), EntryKind::Directory);
}

#[test]
fn get_child_finds_by_exact_name() {
    let d = DirectoryListing::new()
        .add_file("file.bin", FixedSizeFile::new(10))
        .add_file("other", FixedSizeFile::new(20));
    assert!(d.get_child("file.bin").is_some());
    assert!(d.get_child("File.bin").is_none());
    assert!(d.get_child("file").is_none());
    match d.get_child("other") {
        Some(PathHandler::File(f)) => assert_eq!(f.get_size(), 20),
        _ => panic!("expected the file named other"),
    }
}

#[test]
fn listdir_returns_defensive_copies() {
    let d = DirectoryListing::new().add_file("a", FixedSizeFile::new(5));
    let copy = d.listdir();
    drop(copy);
    // The tree is unaffected by whatever happened to the copies.
    assert_eq!(d.child_count(), 1);
    assert!(d.get_child("a").is_some());
}

#[test]
fn clone_preserves_identity_and_contents() {
    let d = DirectoryListing::new().add_file("a", FixedSizeFile::new(5));
    let c = d.clone();
    assert_eq!(d.get_identity(), c.get_identity());
    assert_eq!(c.child_count(), 1);
    match c.get_child("a") {
        Some(h) => assert_eq!(h.get_identity(), d.get_child("a").unwrap().get_identity()),
        None => panic!("clone lost a child"),
    }
}
