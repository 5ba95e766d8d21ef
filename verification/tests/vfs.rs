use rcore_os::fs::vfs::{DiskInode, DiskInodeType, EasyFileSystem, Inode};

fn fs_with(names: &[&str]) -> (EasyFileSystem, Vec<Inode>) {
    let mut fs = EasyFileSystem::new();
    let root = Inode::root();
    let mut inodes = Vec::new();
    for n in names {
        inodes.push(root.create(&mut fs, n).unwrap());
    }
    (fs, inodes)
}

#[test]
fn a_new_file_system_holds_an_empty_root_directory() {
    let fs = EasyFileSystem::new();
    assert_eq!(fs.inodes.len(), 1);
    assert!(fs.inodes[0].is_dir());
    assert!(Inode::root().ls(&fs).is_empty());
    assert_eq!(Inode::root().inode_id, 0);
    assert_eq!(Inode::new(5).inode_id, 5);
}

#[test]
fn created_files_get_the_next_inode_ids_and_are_found_by_name() {
    let (fs, inodes) = fs_with(&["a", "b"]);
    assert_eq!(inodes, vec![Inode::new(1), Inode::new(2)]);
    let root = Inode::root();
    assert_eq!(root.find(&fs, "a"), Some(Inode::new(1)));
    assert_eq!(root.find(&fs, "b"), Some(Inode::new(2)));
    assert_eq!(root.find(&fs, "c"), None);
    assert_eq!(root.ls(&fs), vec!["a".to_string(), "b".to_string()]);
    assert!(!fs.inodes[1].is_dir());
}

#[test]
fn creating_a_name_that_exists_fails_and_changes_nothing() {
    let (mut fs, _) = fs_with(&["a"]);
    assert_eq!(Inode::root().create(&mut fs, "a"), None);
    assert_eq!(fs.inodes.len(), 2);
    assert_eq!(Inode::root().ls(&fs), vec!["a".to_string()]);
}

#[test]
fn reading_back_what_was_written() {
    let (mut fs, inodes) = fs_with(&["f"]);
    let f = inodes[0];
    assert_eq!(f.write_at(&mut fs, 0, b"hello world"), 11);
    let mut buf = [0u8; 5];
    assert_eq!(f.read_at(&fs, 6, &mut buf), 5);
    assert_eq!(&buf, b"world");
    let mut big = [9u8; 20];
    assert_eq!(f.read_at(&fs, 0, &mut big), 11);
    assert_eq!(&big[..11], b"hello world");
    assert_eq!(&big[11..], &[9u8; 9]);
}

#[test]
fn reading_at_or_past_the_end_gives_nothing() {
    let (mut fs, inodes) = fs_with(&["f"]);
    let f = inodes[0];
    f.write_at(&mut fs, 0, b"abc");
    let mut buf = [7u8; 4];
    assert_eq!(f.read_at(&fs, 3, &mut buf), 0);
    assert_eq!(f.read_at(&fs, 10, &mut buf), 0);
    assert_eq!(buf, [7u8; 4]);
}

#[test]
fn writing_past_the_end_fills_the_gap_with_zeros() {
    let (mut fs, inodes) = fs_with(&["f"]);
    let f = inodes[0];
    f.write_at(&mut fs, 0, b"ab");
    assert_eq!(f.write_at(&mut fs, 4, b"cd"), 2);
    assert_eq!(fs.inodes[1].data, vec![b'a', b'b', 0, 0, b'c', b'd']);
    f.write_at(&mut fs, 1, b"X");
    assert_eq!(fs.inodes[1].data, vec![b'a', b'X', 0, 0, b'c', b'd']);
}

#[test]
fn clear_empties_an_inode() {
    let (mut fs, inodes) = fs_with(&["f"]);
    inodes[0].write_at(&mut fs, 0, b"data");
    inodes[0].clear(&mut fs);
    assert!(fs.inodes[1].data.is_empty());
    let mut buf = [0u8; 4];
    assert_eq!(inodes[0].read_at(&fs, 0, &mut buf), 0);
}

#[test]
fn hard_links_name_the_same_inode_and_are_counted() {
    let (mut fs, _) = fs_with(&["a", "b"]);
    let root = Inode::root();
    assert_eq!(root.count_links(&fs, 1), 1);
    root.create_hard_link(&mut fs, "a2", "a");
    root.create_hard_link(&mut fs, "a3", "a2");
    assert_eq!(root.find(&fs, "a3"), Some(Inode::new(1)));
    assert_eq!(root.count_links(&fs, 1), 3);
    assert_eq!(root.count_links(&fs, 2), 1);
}

#[test]
fn the_root_does_not_count_its_first_link_to_itself() {
    let (mut fs, _) = fs_with(&[]);
    let root = Inode::root();
    assert_eq!(root.count_links(&fs, 0), 0);
    fs.inodes[0].entries.push(rcore_os::fs::vfs::DirEntry { name: ".".to_string(), inode_id: 0 });
    assert_eq!(root.count_links(&fs, 0), 0);
    fs.inodes[0].entries.push(rcore_os::fs::vfs::DirEntry { name: "self".to_string(), inode_id: 0 });
    assert_eq!(root.count_links(&fs, 0), 1);
}

#[test]
fn removing_a_link_keeps_the_file_while_another_link_is_left() {
    let (mut fs, inodes) = fs_with(&["a", "b"]);
    let root = Inode::root();
    inodes[0].write_at(&mut fs, 0, b"keep");
    root.create_hard_link(&mut fs, "a2", "a");
    root.remove_hard_link(&mut fs, "a");
    assert_eq!(root.find(&fs, "a"), None);
    assert_eq!(root.find(&fs, "a2"), Some(Inode::new(1)));
    assert_eq!(fs.inodes[1].data, b"keep".to_vec());
    // The last entry takes the place of the removed one.
    assert_eq!(root.ls(&fs), vec!["a2".to_string(), "b".to_string()]);
}

#[test]
fn removing_the_last_link_empties_the_file() {
    let (mut fs, inodes) = fs_with(&["a", "b"]);
    let root = Inode::root();
    inodes[0].write_at(&mut fs, 0, b"gone");
    root.remove_hard_link(&mut fs, "a");
    assert_eq!(root.count_links(&fs, 1), 0);
    assert!(fs.inodes[1].data.is_empty());
    assert_eq!(root.ls(&fs), vec!["b".to_string()]);
}

#[test]
fn removing_a_missing_name_changes_nothing() {
    let (mut fs, _) = fs_with(&["a"]);
    Inode::root().remove_hard_link(&mut fs, "zzz");
    assert_eq!(Inode::root().ls(&fs), vec!["a".to_string()]);
}

#[test]
fn link_then_unlink_gives_back_the_directory() {
    let (mut fs, _) = fs_with(&["a", "b"]);
    let root = Inode::root();
    let before = root.ls(&fs);
    root.create_hard_link(&mut fs, "c", "b");
    root.remove_hard_link(&mut fs, "c");
    assert_eq!(root.ls(&fs), before);
    assert_eq!(root.count_links(&fs, 2), 1);
}

#[test]
fn read_disk_inode_hands_the_inode_to_the_closure() {
    let (mut fs, inodes) = fs_with(&["a"]);
    inodes[0].write_at(&mut fs, 0, b"xyz");
    let n = inodes[0].read_disk_inode(&fs, |d: &DiskInode| d.data.len());
    assert_eq!(n, 3);
    let is_dir = Inode::root().read_disk_inode(&fs, |d: &DiskInode| d.is_dir());
    assert!(is_dir);
    let fresh = DiskInode::initialize(DiskInodeType::File);
    assert!(!fresh.is_dir() && fresh.data.is_empty() && fresh.entries.is_empty());
}
