use rcore_os::fs::vfs::{EasyFileSystem, Inode};
use rcore_os::fs::{flags_read_write, open_file, OSInode, O_CREATE, O_RDONLY, O_RDWR, O_TRUNC, O_WRONLY};
use rcore_os::syscall::fs::{
    alloc_fd, sys_close, sys_fstat, sys_linkat, sys_open, sys_read, sys_unlinkat, sys_write,
    FileDescriptor, ReadOutcome, Stat, StatOutcome, WriteOutcome, S_IFREG,
};

fn console_table() -> Vec<Option<FileDescriptor>> {
    vec![Some(FileDescriptor::Stdin), Some(FileDescriptor::Stdout), Some(FileDescriptor::Stdout)]
}

#[test]
fn open_flags_give_read_and_write_permission() {
    assert_eq!(flags_read_write(O_RDONLY), (true, false));
    assert_eq!(flags_read_write(O_WRONLY), (false, true));
    assert_eq!(flags_read_write(O_RDWR), (true, true));
    assert_eq!(flags_read_write(O_CREATE | O_WRONLY), (false, true));
    assert_eq!(flags_read_write(O_CREATE), (true, true));
}

#[test]
fn opening_a_missing_file_without_create_fails() {
    let mut fs = EasyFileSystem::new();
    assert_eq!(open_file(&mut fs, "nope", O_RDONLY), None);
    let mut table = console_table();
    assert_eq!(sys_open(&mut table, &mut fs, "nope", O_RDWR), -1);
    assert_eq!(table, console_table());
}

#[test]
fn open_with_create_makes_the_file_and_takes_the_lowest_free_descriptor() {
    let mut fs = EasyFileSystem::new();
    let mut table = console_table();
    table[1] = None;
    let fd = sys_open(&mut table, &mut fs, "a", O_CREATE | O_WRONLY);
    assert_eq!(fd, 1);
    assert_eq!(
        table[1],
        Some(FileDescriptor::File(OSInode { readable: false, writable: true, offset: 0, inode: Inode::new(1) }))
    );
    assert_eq!(Inode::root().find(&fs, "a"), Some(Inode::new(1)));
    let fd2 = sys_open(&mut table, &mut fs, "a", O_RDONLY);
    assert_eq!(fd2, 3);
    assert_eq!(table.len(), 4);
}

#[test]
fn open_with_create_or_trunc_empties_an_existing_file() {
    let mut fs = EasyFileSystem::new();
    let f = Inode::root().create(&mut fs, "a").unwrap();
    f.write_at(&mut fs, 0, b"abc");
    let kept = open_file(&mut fs, "a", O_RDONLY).unwrap();
    assert_eq!(kept.inode, f);
    assert_eq!(fs.inodes[1].data.len(), 3);
    open_file(&mut fs, "a", O_TRUNC | O_WRONLY).unwrap();
    assert!(fs.inodes[1].data.is_empty());
    f.write_at(&mut fs, 0, b"abc");
    open_file(&mut fs, "a", O_CREATE).unwrap();
    assert!(fs.inodes[1].data.is_empty());
    assert_eq!(fs.inodes.len(), 2);
}

#[test]
fn close_frees_an_open_descriptor_only() {
    let mut table = console_table();
    assert_eq!(sys_close(&mut table, 2), 0);
    assert_eq!(table[2], None);
    assert_eq!(sys_close(&mut table, 2), -1);
    assert_eq!(sys_close(&mut table, 10), -1);
    assert_eq!(alloc_fd(&mut table), 2);
    let mut full = console_table();
    assert_eq!(alloc_fd(&mut full), 3);
    assert_eq!(full.len(), 4);
}

#[test]
fn write_then_read_through_descriptors() {
    let mut fs = EasyFileSystem::new();
    let mut table = console_table();
    let w = sys_open(&mut table, &mut fs, "f", O_CREATE | O_WRONLY) as usize;
    assert_eq!(sys_write(&mut table, &mut fs, w, b"hello"), WriteOutcome::Written(5));
    assert_eq!(sys_write(&mut table, &mut fs, w, b" you"), WriteOutcome::Written(4));
    let r = sys_open(&mut table, &mut fs, "f", O_RDONLY) as usize;
    match sys_read(&mut table, &fs, r, 6) {
        ReadOutcome::Bytes(b) => assert_eq!(b, b"hello ".to_vec()),
        other => panic!("unexpected {:?}", other),
    }
    match sys_read(&mut table, &fs, r, 100) {
        ReadOutcome::Bytes(b) => assert_eq!(b, b"you".to_vec()),
        other => panic!("unexpected {:?}", other),
    }
    match sys_read(&mut table, &fs, r, 100) {
        ReadOutcome::Bytes(b) => assert!(b.is_empty()),
        other => panic!("unexpected {:?}", other),
    }
}

#[test]
fn descriptors_refuse_what_they_were_not_opened_for() {
    let mut fs = EasyFileSystem::new();
    let mut table = console_table();
    let w = sys_open(&mut table, &mut fs, "f", O_CREATE | O_WRONLY) as usize;
    assert!(matches!(sys_read(&mut table, &fs, w, 4), ReadOutcome::Rejected));
    let r = sys_open(&mut table, &mut fs, "f", O_RDONLY) as usize;
    assert_eq!(sys_write(&mut table, &mut fs, r, b"x"), WriteOutcome::Rejected);
    assert_eq!(sys_write(&mut table, &mut fs, 0, b"x"), WriteOutcome::Rejected);
    assert_eq!(sys_write(&mut table, &mut fs, 1, b"x"), WriteOutcome::Console);
    assert!(matches!(sys_read(&mut table, &fs, 0, 4), ReadOutcome::Console));
    assert!(matches!(sys_read(&mut table, &fs, 1, 4), ReadOutcome::Rejected));
    assert!(matches!(sys_read(&mut table, &fs, 99, 4), ReadOutcome::Rejected));
    assert_eq!(sys_write(&mut table, &mut fs, 99, b"x"), WriteOutcome::Rejected);
}

#[test]
fn fstat_reports_inode_mode_and_links() {
    let mut fs = EasyFileSystem::new();
    let mut table: Vec<Option<FileDescriptor>> = Vec::new();
    let fd = sys_open(&mut table, &mut fs, "a", O_CREATE | O_RDWR) as usize;
    assert_eq!(sys_fstat(&table, &fs, fd), StatOutcome::File(Stat { dev: 0, ino: 1, mode: S_IFREG, nlink: 1 }));
    assert_eq!(sys_linkat(&mut fs, "a", "b"), 0);
    assert_eq!(sys_fstat(&table, &fs, fd), StatOutcome::File(Stat { dev: 0, ino: 1, mode: S_IFREG, nlink: 2 }));
    assert_eq!(sys_fstat(&table, &fs, fd + 1), StatOutcome::Rejected);
    let console = console_table();
    assert_eq!(sys_fstat(&console, &fs, 0), StatOutcome::Console);
    assert_eq!(sys_fstat(&console, &fs, 1), StatOutcome::Console);
}

#[test]
fn linkat_refuses_the_same_name_and_a_missing_file() {
    let mut fs = EasyFileSystem::new();
    Inode::root().create(&mut fs, "a").unwrap();
    assert_eq!(sys_linkat(&mut fs, "a", "a"), -1);
    assert_eq!(sys_linkat(&mut fs, "missing", "b"), -1);
    assert_eq!(Inode::root().ls(&fs), vec!["a".to_string()]);
    assert_eq!(sys_linkat(&mut fs, "a", "b"), 0);
    assert_eq!(Inode::root().find(&fs, "b"), Some(Inode::new(1)));
}

#[test]
fn unlinkat_removes_a_name_and_refuses_a_missing_one() {
    let mut fs = EasyFileSystem::new();
    let f = Inode::root().create(&mut fs, "a").unwrap();
    f.write_at(&mut fs, 0, b"data");
    assert_eq!(sys_linkat(&mut fs, "a", "b"), 0);
    assert_eq!(sys_unlinkat(&mut fs, "a"), 0);
    assert_eq!(fs.inodes[1].data, b"data".to_vec());
    assert_eq!(sys_unlinkat(&mut fs, "a"), -1);
    assert_eq!(sys_unlinkat(&mut fs, "b"), 0);
    assert!(fs.inodes[1].data.is_empty());
    assert!(Inode::root().ls(&fs).is_empty());
}
