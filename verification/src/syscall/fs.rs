use vstd::prelude::*;

use crate::fs::vfs::{
    after_unlink, cleared, find_entry, lemma_find_entry, link_count, read_end, write_bytes,
    EasyFileSystem, FsView, Inode,
};
use crate::fs::{flags_known, open_file, read_write, root_ok, OSInode, O_CREATE, O_TRUNC};
use crate::syscall::sync::{first_free, find_free_slot};

verus! {

/// What a file descriptor refers to.
#[derive(Clone, Copy, PartialEq, Eq, Structural, Debug)]
pub enum FileDescriptor {
    /// The console, for reading.
    Stdin,
    /// The console, for writing.
    Stdout,
    /// An open file of the file system.
    File(OSInode),
}

impl FileDescriptor {
    /// Whether the descriptor may be read.
    pub open spec fn can_read(&self) -> bool {
        match self {
            FileDescriptor::Stdin => true,
            FileDescriptor::Stdout => false,
            FileDescriptor::File(f) => f.readable,
        }
    }

    /// Whether the descriptor may be written.
    pub open spec fn can_write(&self) -> bool {
        match self {
            FileDescriptor::Stdin => false,
            FileDescriptor::Stdout => true,
            FileDescriptor::File(f) => f.writable,
        }
    }

    /// Whether the descriptor may be read.
    pub fn readable(&self) -> (r: bool)
        ensures
            r == self.can_read(),
    {
        match self {
            FileDescriptor::Stdin => true,
            FileDescriptor::Stdout => false,
            FileDescriptor::File(f) => f.readable,
        }
    }

    /// Whether the descriptor may be written.
    pub fn writable(&self) -> (r: bool)
        ensures
            r == self.can_write(),
    {
        match self {
            FileDescriptor::Stdin => false,
            FileDescriptor::Stdout => true,
            FileDescriptor::File(f) => f.writable,
        }
    }
}

/// The mode bits of a directory.
pub const S_IFDIR: u32 = 0o040000;
/// The mode bits of a regular file.
pub const S_IFREG: u32 = 0o100000;

/// What `fstat` tells of a file: device, inode number, mode and number of hard links.
#[derive(Clone, Copy, PartialEq, Eq, Structural, Debug)]
pub struct Stat {
    pub dev: u64,
    pub ino: u64,
    pub mode: u32,
    pub nlink: u32,
}

/// What a read call comes to.
#[derive(Debug)]
pub enum ReadOutcome {
    /// The descriptor cannot be read: the call answers -1.
    Rejected,
    /// The console is to be read into the user's buffer.
    Console,
    /// These bytes go to the user's buffer; the call answers their number.
    Bytes(Vec<u8>),
}

/// What a write call comes to.
#[derive(Clone, Copy, PartialEq, Eq, Structural, Debug)]
pub enum WriteOutcome {
    /// The descriptor cannot be written: the call answers -1.
    Rejected,
    /// The user's bytes are to be printed on the console.
    Console,
    /// This many bytes were written to the file; the call answers that number.
    Written(usize),
}

/// The descriptor in slot `fd`, where there is one.
pub open spec fn descriptor_at(fd_table: Seq<Option<FileDescriptor>>, fd: int) -> Option<FileDescriptor> {
    if 0 <= fd < fd_table.len() {
        fd_table[fd]
    } else {
        None
    }
}

/// Takes the lowest free descriptor slot, adding one at the end where none is free.
pub fn alloc_fd(fd_table: &mut Vec<Option<FileDescriptor>>) -> (r: usize)
    ensures
        r == first_free(old(fd_table)@),
        r < final(fd_table)@.len(),
        final(fd_table)@ == if first_free(old(fd_table)@) < old(fd_table)@.len() {
            old(fd_table)@
        } else {
            old(fd_table)@.push(None)
        },
{
    match find_free_slot(fd_table) {
        Some(fd) => fd,
        None => {
            fd_table.push(None);
            fd_table.len() - 1
        },
    }
}

/// Opens `path` in the root directory with `flags` (see `open_file`) and gives the new
/// descriptor, the lowest free one; where the file cannot be opened, answers -1.
pub fn sys_open(
    fd_table: &mut Vec<Option<FileDescriptor>>,
    fs: &mut EasyFileSystem,
    path: &str,
    flags: u32,
) -> (r: isize)
    requires
        root_ok(old(fs)@),
        flags_known(flags),
    ensures
        ({
            let es = old(fs)@[0].2;
            let found = find_entry(es, path@) < es.len();
            if flags & O_CREATE != 0 || found {
                let fd = first_free(old(fd_table)@);
                let id = if found {
                    es[find_entry(es, path@)].1
                } else {
                    old(fs)@.len() as u32
                };
                let (readable, writable) = read_write(flags);
                let table = if fd < old(fd_table)@.len() {
                    old(fd_table)@
                } else {
                    old(fd_table)@.push(None)
                };
                &&& r == fd as isize
                &&& final(fs)@ == if !found {
                    old(fs)@.push((false, Seq::<u8>::empty(), Seq::empty())).update(
                        0,
                        (true, old(fs)@[0].1, es.push((path@, id))),
                    )
                } else if flags & O_CREATE != 0 || flags & O_TRUNC != 0 {
                    old(fs)@.update(id as int, cleared(old(fs)@[id as int]))
                } else {
                    old(fs)@
                }
                &&& final(fd_table)@ == table.update(
                    fd,
                    Some(FileDescriptor::File(OSInode { readable, writable, offset: 0, inode: Inode { inode_id: id } })),
                )
            } else {
                r == -1 && final(fd_table)@ == old(fd_table)@ && final(fs)@ == old(fs)@
            }
        }),
{
    if let Some(inode) = open_file(fs, path, flags) {
        let fd = alloc_fd(fd_table);
        fd_table.set(fd, Some(FileDescriptor::File(inode)));
        fd as isize
    } else {
        -1
    }
}

/// Closes descriptor `fd`: 0 where it was open, -1 where it was not.
pub fn sys_close(fd_table: &mut Vec<Option<FileDescriptor>>, fd: usize) -> (r: isize)
    ensures
        descriptor_at(old(fd_table)@, fd as int) is None ==> r == -1 && final(fd_table)@ == old(fd_table)@,
        descriptor_at(old(fd_table)@, fd as int) is Some ==> r == 0 && final(fd_table)@ == old(fd_table)@.update(fd as int, None),
{
    if fd >= fd_table.len() {
        return -1;
    }
    if fd_table[fd].is_none() {
        return -1;
    }
    fd_table.set(fd, None);
    0
}

/// Reads up to `len` bytes from descriptor `fd`. A file gives the bytes from its position on,
/// as many as are there, and its position moves past them; the console is left to the caller.
pub fn sys_read(
    fd_table: &mut Vec<Option<FileDescriptor>>,
    fs: &EasyFileSystem,
    fd: usize,
    len: usize,
) -> (r: ReadOutcome)
    requires
        descriptor_at(old(fd_table)@, fd as int) matches Some(FileDescriptor::File(f)) ==> (
        f.readable ==> f.inode.file_in(fs@) && f.offset + len <= usize::MAX),
    ensures
        ({
            let d = descriptor_at(old(fd_table)@, fd as int);
            match d {
                None => r == ReadOutcome::Rejected && final(fd_table)@ == old(fd_table)@,
                Some(FileDescriptor::Stdout) => r == ReadOutcome::Rejected && final(fd_table)@ == old(fd_table)@,
                Some(FileDescriptor::Stdin) => r == ReadOutcome::Console && final(fd_table)@ == old(fd_table)@,
                Some(FileDescriptor::File(f)) => if !f.readable {
                    r == ReadOutcome::Rejected && final(fd_table)@ == old(fd_table)@
                } else {
                    let bytes = fs@[f.inode.inode_id as int].1;
                    let end = read_end(bytes, f.offset as int, len as int);
                    let n = if f.offset < end { end - f.offset } else { 0 };
                    &&& r matches ReadOutcome::Bytes(v) && v@ == if n > 0 {
                        bytes.subrange(f.offset as int, f.offset + n)
                    } else {
                        Seq::<u8>::empty()
                    }
                    &&& final(fd_table)@ == old(fd_table)@.update(
                        fd as int,
                        Some(FileDescriptor::File(OSInode { offset: (f.offset + n) as usize, ..f })),
                    )
                },
            }
        }),
{
    if fd >= fd_table.len() {
        return ReadOutcome::Rejected;
    }
    match fd_table[fd] {
        None => ReadOutcome::Rejected,
        Some(FileDescriptor::Stdout) => ReadOutcome::Rejected,
        Some(FileDescriptor::Stdin) => ReadOutcome::Console,
        Some(FileDescriptor::File(f)) => {
            if !f.readable {
                return ReadOutcome::Rejected;
            }
            let mut buf: Vec<u8> = Vec::new();
            let mut i: usize = 0;
            while i < len
                invariant
                    0 <= i <= len,
                    buf@.len() == i,
                decreases len - i,
            {
                buf.push(0u8);
                i = i + 1;
            }
            let n = f.inode.read_at(fs, f.offset, buf.as_mut_slice());
            let ghost filled = buf@;
            buf.truncate(n);
            proof {
                let bytes = fs@[f.inode.inode_id as int].1;
                let end = read_end(bytes, f.offset as int, len as int);
                if f.offset < end {
                    assert(buf@ =~= bytes.subrange(f.offset as int, end));
                } else {
                    assert(buf@ =~= Seq::<u8>::empty());
                }
            }
            fd_table.set(fd, Some(FileDescriptor::File(OSInode { offset: f.offset + n, ..f })));
            ReadOutcome::Bytes(buf)
        },
    }
}

/// Writes `buf` to descriptor `fd`. A file takes the bytes at its position, which moves past
/// them; the console is left to the caller.
pub fn sys_write(
    fd_table: &mut Vec<Option<FileDescriptor>>,
    fs: &mut EasyFileSystem,
    fd: usize,
    buf: &[u8],
) -> (r: WriteOutcome)
    requires
        descriptor_at(old(fd_table)@, fd as int) matches Some(FileDescriptor::File(f)) ==> (
        f.writable ==> f.inode.file_in(old(fs)@) && f.offset + buf@.len() <= u32::MAX),
    ensures
        ({
            let d = descriptor_at(old(fd_table)@, fd as int);
            match d {
                None => r == WriteOutcome::Rejected && final(fd_table)@ == old(fd_table)@ && final(fs)@ == old(fs)@,
                Some(FileDescriptor::Stdin) => r == WriteOutcome::Rejected && final(fd_table)@ == old(fd_table)@
                    && final(fs)@ == old(fs)@,
                Some(FileDescriptor::Stdout) => r == WriteOutcome::Console && final(fd_table)@ == old(fd_table)@
                    && final(fs)@ == old(fs)@,
                Some(FileDescriptor::File(f)) => if !f.writable {
                    r == WriteOutcome::Rejected && final(fd_table)@ == old(fd_table)@ && final(fs)@ == old(fs)@
                } else {
                    let id = f.inode.inode_id as int;
                    &&& r == WriteOutcome::Written(buf@.len() as usize)
                    &&& final(fs)@ == old(fs)@.update(
                        id,
                        (false, write_bytes(old(fs)@[id].1, f.offset as int, buf@), old(fs)@[id].2),
                    )
                    &&& final(fd_table)@ == old(fd_table)@.update(
                        fd as int,
                        Some(FileDescriptor::File(OSInode { offset: (f.offset + buf@.len()) as usize, ..f })),
                    )
                },
            }
        }),
{
    if fd >= fd_table.len() {
        return WriteOutcome::Rejected;
    }
    match fd_table[fd] {
        None => WriteOutcome::Rejected,
        Some(file) => {
            if !file.writable() {
                return WriteOutcome::Rejected;
            }
            match file {
                FileDescriptor::File(f) => {
                    let n = f.inode.write_at(fs, f.offset, buf);
                    fd_table.set(fd, Some(FileDescriptor::File(OSInode { offset: f.offset + n, ..f })));
                    WriteOutcome::Written(n)
                },
                _ => WriteOutcome::Console,
            }
        },
    }
}

/// The status of a file of the file system: device 0, its inode number, directory or regular
/// file, and the hard links to it that the root directory holds.
pub open spec fn stat_of(fs: FsView, id: u32) -> Stat {
    Stat {
        dev: 0,
        ino: id as u64,
        mode: if fs[id as int].0 { S_IFDIR } else { S_IFREG },
        nlink: link_count(fs, 0, id) as u32,
    }
}

/// What an fstat call comes to.
#[derive(Clone, Copy, PartialEq, Eq, Structural, Debug)]
pub enum StatOutcome {
    /// The descriptor is not open: the call answers -1.
    Rejected,
    /// The descriptor is the console, whose status is left to the caller.
    Console,
    /// The status of a file of the file system; the call answers 0.
    File(Stat),
}

/// The status of what descriptor `fd` refers to: a file of the file system gives its `Stat`,
/// the console is left to the caller, and a descriptor that is not open is refused.
pub fn sys_fstat(fd_table: &Vec<Option<FileDescriptor>>, fs: &EasyFileSystem, fd: usize) -> (r: StatOutcome)
    requires
        fs@.len() > 0,
        fs@[0].0,
        descriptor_at(fd_table@, fd as int) matches Some(FileDescriptor::File(f)) ==> (f.inode.inode_id as int)
            < fs@.len(),
    ensures
        r == match descriptor_at(fd_table@, fd as int) {
            Some(FileDescriptor::File(f)) => StatOutcome::File(stat_of(fs@, f.inode.inode_id)),
            Some(_) => StatOutcome::Console,
            None => StatOutcome::Rejected,
        },
{
    if fd >= fd_table.len() {
        return StatOutcome::Rejected;
    }
    match fd_table[fd] {
        Some(FileDescriptor::File(f)) => {
            let id = f.inode.inode_id;
            let is_dir = fs.inodes[id as usize].is_dir();
            let nlink = Inode::root().count_links(fs, id);
            StatOutcome::File(
                Stat { dev: 0, ino: id as u64, mode: if is_dir { S_IFDIR } else { S_IFREG }, nlink: nlink as u32 },
            )
        },
        Some(_) => StatOutcome::Console,
        None => StatOutcome::Rejected,
    }
}

/// Makes `new_path` in the root directory a hard link to the file `old_path`: -1 where the two
/// names are the same or `old_path` is not there, 0 otherwise.
pub fn sys_linkat(fs: &mut EasyFileSystem, old_path: &str, new_path: &str) -> (r: isize)
    requires
        old(fs)@.len() > 0,
        old(fs)@[0].0,
    ensures
        ({
            let d = old(fs)@[0];
            let k = find_entry(d.2, old_path@);
            if old_path@ == new_path@ || k >= d.2.len() {
                r == -1 && final(fs)@ == old(fs)@
            } else {
                r == 0 && final(fs)@ == old(fs)@.update(0, (d.0, d.1, d.2.push((new_path@, d.2[k].1))))
            }
        }),
{
    let old_name = old_path.to_owned();
    let new_name = new_path.to_owned();
    if old_name == new_name {
        return -1;
    }
    let root = Inode::root();
    if root.find(fs, old_path).is_none() {
        return -1;
    }
    proof {
        lemma_find_entry(fs@[0].2, old_path@);
    }
    root.create_hard_link(fs, new_path, old_path);
    0
}

/// Removes the entry `path` from the root directory (see `Inode::remove_hard_link`): -1 where
/// it is not there, 0 otherwise.
pub fn sys_unlinkat(fs: &mut EasyFileSystem, path: &str) -> (r: isize)
    requires
        root_ok(old(fs)@),
    ensures
        ({
            let es = old(fs)@[0].2;
            let k = find_entry(es, path@);
            if k >= es.len() {
                r == -1 && final(fs)@ == old(fs)@
            } else {
                r == 0 && final(fs)@ == after_unlink(old(fs)@, 0, k)
            }
        }),
{
    let root = Inode::root();
    if root.find(fs, path).is_none() {
        return -1;
    }
    proof {
        lemma_find_entry(fs@[0].2, path@);
    }
    root.remove_hard_link(fs, path);
    0
}

} // verus!
