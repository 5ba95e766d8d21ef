pub mod vfs;

use vstd::prelude::*;

use crate::fs::vfs::{cleared, find_entry, lemma_find_entry, EasyFileSystem, FsView, Inode};

verus! {

/// Open for reading only (no flag at all).
pub const O_RDONLY: u32 = 0;
/// Open for writing only.
pub const O_WRONLY: u32 = 1;
/// Open for reading and writing.
pub const O_RDWR: u32 = 2;
/// Create the file where it is missing, empty it where it is there.
pub const O_CREATE: u32 = 512;
/// Empty the file.
pub const O_TRUNC: u32 = 1024;

/// The flags hold no bit besides the known ones.
pub open spec fn flags_known(flags: u32) -> bool {
    flags & !(O_WRONLY | O_RDWR | O_CREATE | O_TRUNC) == 0
}

/// Whether a file opened with `flags` can be read and written: no flag at all means read only,
/// `O_WRONLY` write only, anything else both.
pub open spec fn read_write(flags: u32) -> (bool, bool) {
    if flags == 0 {
        (true, false)
    } else if flags & O_WRONLY != 0 {
        (false, true)
    } else {
        (true, true)
    }
}

/// An open file is readable unless `O_WRONLY` is set, and writable unless no flag at all is set:
/// the create and truncate bits change neither where some flag is set.
pub proof fn law_access_mode_decides(flags: u32)
    ensures
        read_write(flags).0 == (flags & O_WRONLY == 0),
        read_write(flags).1 == (flags != 0),
        flags != 0 ==> read_write(flags | O_CREATE) == read_write(flags),
        flags != 0 ==> read_write(flags | O_TRUNC) == read_write(flags),
        read_write(O_RDWR) == (true, true),
        read_write(O_RDWR | O_CREATE) == (true, true),
        read_write(O_RDWR | O_TRUNC) == (true, true),
        read_write(O_WRONLY | O_CREATE) == (false, true),
        read_write(O_WRONLY | O_TRUNC) == (false, true),
{
    assert(0u32 & 1u32 == 0) by (bit_vector);
    assert((flags | 512u32) != 0 && (flags | 1024u32) != 0) by (bit_vector);
    assert(((flags | 512u32) & 1u32 == 0) == (flags & 1u32 == 0)) by (bit_vector);
    assert(((flags | 1024u32) & 1u32 == 0) == (flags & 1u32 == 0)) by (bit_vector);
    assert(2u32 & 1u32 == 0 && (2u32 | 512u32) & 1u32 == 0 && (2u32 | 1024u32) & 1u32 == 0) by (bit_vector);
    assert((1u32 | 512u32) & 1u32 != 0 && (1u32 | 1024u32) & 1u32 != 0) by (bit_vector);
    assert((2u32 | 512u32) != 0 && (2u32 | 1024u32) != 0 && (1u32 | 512u32) != 0 && (1u32 | 1024u32) != 0)
        by (bit_vector);
}

/// Whether a file opened with `flags` can be read and written.
pub fn flags_read_write(flags: u32) -> (r: (bool, bool))
    ensures
        r == read_write(flags),
        r.0 == (flags & O_WRONLY == 0),
        r.1 == (flags != 0),
{
    proof {
        law_access_mode_decides(flags);
    }
    if flags == 0 {
        (true, false)
    } else if flags & O_WRONLY != 0 {
        (false, true)
    } else {
        (true, true)
    }
}

/// An open file: whether it may be read and written, the position of the next read or write,
/// and the inode.
#[derive(Clone, Copy, PartialEq, Eq, Structural, Debug)]
pub struct OSInode {
    pub readable: bool,
    pub writable: bool,
    pub offset: usize,
    pub inode: Inode,
}

/// The file system holds its root directory as inode 0, every entry of the root names an
/// inode that exists, and it can take one more inode.
pub open spec fn root_ok(fs: FsView) -> bool {
    &&& fs.len() > 0
    &&& fs[0].0
    &&& fs.len() < u32::MAX
    &&& forall|k: int| 0 <= k < fs[0].2.len() ==> (#[trigger] fs[0].2[k]).1 < fs.len()
}

/// Opens the file `name` of the root directory. With `O_CREATE` the file is emptied where it
/// exists and created where it does not; otherwise it must exist, and `O_TRUNC` empties it.
pub fn open_file(fs: &mut EasyFileSystem, name: &str, flags: u32) -> (r: Option<OSInode>)
    requires
        root_ok(old(fs)@),
    ensures
        ({
            let es = old(fs)@[0].2;
            let k = find_entry(es, name@);
            let (readable, writable) = read_write(flags);
            if flags & O_CREATE != 0 {
                if k < es.len() {
                    &&& r == Some(OSInode { readable, writable, offset: 0, inode: Inode { inode_id: es[k].1 } })
                    &&& final(fs)@ == old(fs)@.update(
                        es[k].1 as int,
                        cleared(old(fs)@[es[k].1 as int]),
                    )
                } else {
                    let n = old(fs)@.len();
                    &&& r == Some(OSInode { readable, writable, offset: 0, inode: Inode { inode_id: n as u32 } })
                    &&& final(fs)@ == old(fs)@.push((false, Seq::<u8>::empty(), Seq::empty())).update(
                        0,
                        (true, old(fs)@[0].1, es.push((name@, n as u32))),
                    )
                }
            } else {
                if k < es.len() {
                    &&& r == Some(OSInode { readable, writable, offset: 0, inode: Inode { inode_id: es[k].1 } })
                    &&& final(fs)@ == if flags & O_TRUNC != 0 {
                        old(fs)@.update(es[k].1 as int, cleared(old(fs)@[es[k].1 as int]))
                    } else {
                        old(fs)@
                    }
                } else {
                    r == None::<OSInode> && final(fs)@ == old(fs)@
                }
            }
        }),
{
    let root = Inode::root();
    let (readable, writable) = flags_read_write(flags);
    if flags & O_CREATE != 0 {
        if let Some(inode) = root.find(fs, name) {
            proof {
                lemma_find_entry(fs@[0].2, name@);
            }
            inode.clear(fs);
            Some(OSInode { readable, writable, offset: 0, inode })
        } else {
            match root.create(fs, name) {
                Some(inode) => Some(OSInode { readable, writable, offset: 0, inode }),
                None => None,
            }
        }
    } else {
        match root.find(fs, name) {
            Some(inode) => {
                proof {
                    lemma_find_entry(fs@[0].2, name@);
                }
                if flags & O_TRUNC != 0 {
                    inode.clear(fs);
                }
                Some(OSInode { readable, writable, offset: 0, inode })
            },
            None => None,
        }
    }
}

} // verus!
