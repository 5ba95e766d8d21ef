use vstd::prelude::*;

verus! {

// ---------------------------------------------------------------------------------------------
// The file system as plain values: a table of disk inodes indexed by inode id. A file inode
// holds its bytes; a directory inode holds its entries in order.
// ---------------------------------------------------------------------------------------------

/// A directory entry: a name and the inode it names.
pub struct DirEntry {
    pub name: String,
    pub inode_id: u32,
}

/// A directory entry by its view: (name, inode id).
pub type EntryView = (Seq<char>, u32);

impl View for DirEntry {
    type V = EntryView;

    open spec fn view(&self) -> EntryView {
        (self.name@, self.inode_id)
    }
}

/// Whether an inode is a regular file or a directory.
#[derive(Clone, Copy, PartialEq, Eq, Structural, Debug)]
pub enum DiskInodeType {
    File,
    Directory,
}

/// An inode on disk: its type, the bytes of a file and the entries of a directory.
pub struct DiskInode {
    pub type_: DiskInodeType,
    pub data: Vec<u8>,
    pub entries: Vec<DirEntry>,
}

/// A disk inode by its view: (is a directory, bytes, entries).
pub type DiskInodeView = (bool, Seq<u8>, Seq<EntryView>);

/// The entries of a directory, each by its view.
pub open spec fn entries_view(es: &Vec<DirEntry>) -> Seq<EntryView> {
    Seq::new(es.len() as nat, |i: int| es[i]@)
}

impl View for DiskInode {
    type V = DiskInodeView;

    open spec fn view(&self) -> DiskInodeView {
        (self.type_ == DiskInodeType::Directory, self.data@, entries_view(&self.entries))
    }
}

impl DiskInode {
    /// A new, empty inode of the given type.
    pub fn initialize(type_: DiskInodeType) -> (r: Self)
        ensures
            r@ == (type_ == DiskInodeType::Directory, Seq::<u8>::empty(), Seq::<EntryView>::empty()),
    {
        let r = DiskInode { type_, data: Vec::new(), entries: Vec::new() };
        assert(entries_view(&r.entries) =~= Seq::<EntryView>::empty());
        r
    }

    /// Whether this inode is a directory.
    pub fn is_dir(&self) -> (r: bool)
        ensures
            r == self@.0,
    {
        match self.type_ {
            DiskInodeType::Directory => true,
            DiskInodeType::File => false,
        }
    }
}

/// The file system: its inodes, indexed by inode id. Inode 0 is the root directory.
pub struct EasyFileSystem {
    pub inodes: Vec<DiskInode>,
}

/// The file system by its view: the views of its inodes.
pub type FsView = Seq<DiskInodeView>;

impl View for EasyFileSystem {
    type V = FsView;

    open spec fn view(&self) -> FsView {
        Seq::new(self.inodes.len() as nat, |i: int| self.inodes[i]@)
    }
}

/// An inode with its bytes and its entries removed.
pub open spec fn cleared(d: DiskInodeView) -> DiskInodeView {
    (d.0, Seq::empty(), Seq::empty())
}

/// Index of the first entry at or after `i` named `name`, or `es.len()` if there is none.
pub open spec fn find_entry_from(es: Seq<EntryView>, name: Seq<char>, i: int) -> int
    decreases es.len() - i,
{
    if i < 0 || i >= es.len() {
        es.len() as int
    } else if es[i].0 == name {
        i
    } else {
        find_entry_from(es, name, i + 1)
    }
}

/// Index of the first entry named `name`, or `es.len()` if there is none.
pub open spec fn find_entry(es: Seq<EntryView>, name: Seq<char>) -> int {
    find_entry_from(es, name, 0)
}

/// Number of entries that name inode `id`.
pub open spec fn count_entries(es: Seq<EntryView>, id: u32) -> nat
    decreases es.len(),
{
    if es.len() == 0 {
        0
    } else {
        count_entries(es.drop_last(), id) + (if es.last().1 == id {
            1nat
        } else {
            0nat
        })
    }
}

/// The hard links to inode `id` that directory `dir` holds; a directory does not count the
/// first entry that names it.
pub open spec fn link_count(fs: FsView, dir: int, id: u32) -> nat {
    let c = count_entries(fs[dir].2, id);
    if fs[id as int].0 && c > 0 {
        (c - 1) as nat
    } else {
        c
    }
}

/// `d` with `b` written at `offset`: the bytes grow with zeros up to the end of the write where
/// they are shorter.
pub open spec fn write_bytes(d: Seq<u8>, offset: int, b: Seq<u8>) -> Seq<u8> {
    let n = if d.len() > offset + b.len() {
        d.len() as int
    } else {
        offset + b.len()
    };
    Seq::new(
        n as nat,
        |i: int|
            if offset <= i < offset + b.len() {
                b[i - offset]
            } else if i < d.len() {
                d[i]
            } else {
                0u8
            },
    )
}

/// Where a read of `len` bytes at `offset` ends: at the end of the request or of the data.
pub open spec fn read_end(d: Seq<u8>, offset: int, len: int) -> int {
    if offset + len < d.len() {
        offset + len
    } else {
        d.len() as int
    }
}

/// The entries after entry `k` is removed: the last entry takes its place.
pub open spec fn swap_out(es: Seq<EntryView>, k: int) -> Seq<EntryView> {
    es.update(k, es.last()).drop_last()
}

/// The file system after directory `dir` drops its entry `k`, and inode `id` that the entry
/// named is cleared where no link to it is left in `dir`.
pub open spec fn after_unlink(fs: FsView, dir: int, k: int) -> FsView {
    let d = fs[dir];
    let id = d.2[k].1;
    let fs1 = fs.update(dir, (d.0, d.1, swap_out(d.2, k)));
    if link_count(fs1, dir, id) == 0 {
        fs1.update(id as int, cleared(fs1[id as int]))
    } else {
        fs1
    }
}

proof fn lemma_find_entry_from(es: Seq<EntryView>, name: Seq<char>, i: int)
    requires
        0 <= i <= es.len(),
    ensures
        i <= find_entry_from(es, name, i) <= es.len(),
        find_entry_from(es, name, i) < es.len() ==> es[find_entry_from(es, name, i)].0 == name,
        forall|k: int| i <= k < find_entry_from(es, name, i) ==> es[k].0 != name,
    decreases es.len() - i,
{
    if i < es.len() && es[i].0 != name {
        lemma_find_entry_from(es, name, i + 1);
    }
}

/// `find_entry` gives the first entry with the name.
pub proof fn lemma_find_entry(es: Seq<EntryView>, name: Seq<char>)
    ensures
        0 <= find_entry(es, name) <= es.len(),
        find_entry(es, name) < es.len() ==> es[find_entry(es, name)].0 == name,
        forall|k: int| 0 <= k < find_entry(es, name) ==> es[k].0 != name,
{
    lemma_find_entry_from(es, name, 0);
}

/// The first entry with the name is what `find_entry` gives.
pub proof fn lemma_find_entry_unique(es: Seq<EntryView>, name: Seq<char>, k: int)
    requires
        0 <= k <= es.len(),
        k < es.len() ==> es[k].0 == name,
        forall|j: int| 0 <= j < k ==> es[j].0 != name,
    ensures
        find_entry(es, name) == k,
{
    lemma_find_entry(es, name);
    let f = find_entry(es, name);
    if f < k {
        assert(es[f].0 == name);
    } else if k < f {
        assert(es[k].0 == name);
    }
}

/// Counting the entries of `es` one prefix at a time.
proof fn lemma_count_entries_prefix(es: Seq<EntryView>, id: u32, n: int)
    requires
        0 <= n < es.len(),
    ensures
        count_entries(es.subrange(0, n + 1), id) == count_entries(es.subrange(0, n), id) + (if es[n].1
            == id {
            1nat
        } else {
            0nat
        }),
{
    assert(es.subrange(0, n + 1).drop_last() =~= es.subrange(0, n));
}

/// Appending an entry adds one to the count of the inode it names.
pub proof fn lemma_count_entries_push(es: Seq<EntryView>, e: EntryView, id: u32)
    ensures
        count_entries(es.push(e), id) == count_entries(es, id) + (if e.1 == id {
            1nat
        } else {
            0nat
        }),
{
    assert(es.push(e).drop_last() =~= es);
}

impl EasyFileSystem {
    /// A file system that holds an empty root directory and nothing else.
    pub fn new() -> (r: Self)
        ensures
            r@ == seq![(true, Seq::<u8>::empty(), Seq::<EntryView>::empty())],
    {
        let mut inodes: Vec<DiskInode> = Vec::new();
        inodes.push(DiskInode::initialize(DiskInodeType::Directory));
        let r = EasyFileSystem { inodes };
        assert(r@ =~= seq![(true, Seq::<u8>::empty(), Seq::<EntryView>::empty())]);
        r
    }

    /// The inode id that the next new inode gets.
    fn alloc_inode(&self) -> (r: u32)
        requires
            self@.len() < u32::MAX,
        ensures
            r == self@.len(),
    {
        self.inodes.len() as u32
    }
}

/// A handle on an inode of the file system.
#[derive(Clone, Copy, PartialEq, Eq, Structural, Debug)]
pub struct Inode {
    pub inode_id: u32,
}

impl Inode {
    /// A handle on inode `inode_id`.
    pub fn new(inode_id: u32) -> (r: Self)
        ensures
            r.inode_id == inode_id,
    {
        Inode { inode_id }
    }

    /// The handle on the root directory.
    pub fn root() -> (r: Self)
        ensures
            r.inode_id == 0,
    {
        Inode { inode_id: 0 }
    }

    /// The handle names an inode of `fs`.
    pub open spec fn valid_in(&self, fs: FsView) -> bool {
        (self.inode_id as int) < fs.len()
    }

    /// The handle names a directory of `fs`.
    pub open spec fn dir_in(&self, fs: FsView) -> bool {
        self.valid_in(fs) && fs[self.inode_id as int].0
    }

    /// The handle names a regular file of `fs`.
    pub open spec fn file_in(&self, fs: FsView) -> bool {
        self.valid_in(fs) && !fs[self.inode_id as int].0
    }

    /// Calls `f` on the disk inode and gives back what it returns.
    pub fn read_disk_inode<V>(&self, fs: &EasyFileSystem, f: impl FnOnce(&DiskInode) -> V) -> (r: V)
        requires
            self.valid_in(fs@),
            f.requires((&fs.inodes@[self.inode_id as int],)),
        ensures
            f.ensures((&fs.inodes@[self.inode_id as int],), r),
    {
        f(&fs.inodes[self.inode_id as usize])
    }

    /// The inode id of the first entry of `disk_inode` named `name`.
    fn find_inode_id(&self, name: &String, disk_inode: &DiskInode) -> (r: Option<u32>)
        requires
            disk_inode@.0,
        ensures
            ({
                let es = disk_inode@.2;
                let k = find_entry(es, name@);
                r == if k < es.len() {
                    Some(es[k].1)
                } else {
                    None::<u32>
                }
            }),
    {
        let ghost es = disk_inode@.2;
        let file_count = disk_inode.entries.len();
        let mut i: usize = 0;
        while i < file_count
            invariant
                file_count == es.len(),
                es == entries_view(&disk_inode.entries),
                0 <= i <= file_count,
                forall|k: int| 0 <= k < i ==> es[k].0 != name@,
            decreases file_count - i,
        {
            if disk_inode.entries[i].name == *name {
                proof {
                    lemma_find_entry_unique(es, name@, i as int);
                }
                return Some(disk_inode.entries[i].inode_id);
            }
            i = i + 1;
        }
        proof {
            lemma_find_entry_unique(es, name@, i as int);
        }
        None
    }

    /// The inode that the first entry of this directory named `name` names, if there is one.
    pub fn find(&self, fs: &EasyFileSystem, name: &str) -> (r: Option<Inode>)
        requires
            self.dir_in(fs@),
        ensures
            ({
                let es = fs@[self.inode_id as int].2;
                let k = find_entry(es, name@);
                r == if k < es.len() {
                    Some(Inode { inode_id: es[k].1 })
                } else {
                    None::<Inode>
                }
            }),
    {
        let key = name.to_owned();
        let disk_inode = &fs.inodes[self.inode_id as usize];
        match self.find_inode_id(&key, disk_inode) {
            Some(inode_id) => Some(Inode::new(inode_id)),
            None => None,
        }
    }

    /// The names of the entries of this directory, in order.
    pub fn ls(&self, fs: &EasyFileSystem) -> (r: Vec<String>)
        requires
            self.dir_in(fs@),
        ensures
            r@.len() == fs@[self.inode_id as int].2.len(),
            forall|i: int| 0 <= i < r@.len() ==> r@[i]@ == fs@[self.inode_id as int].2[i].0,
    {
        let disk_inode = &fs.inodes[self.inode_id as usize];
        let ghost es = disk_inode@.2;
        let file_count = disk_inode.entries.len();
        let mut v: Vec<String> = Vec::new();
        let mut i: usize = 0;
        while i < file_count
            invariant
                file_count == es.len(),
                es == entries_view(&disk_inode.entries),
                0 <= i <= file_count,
                v@.len() == i,
                forall|k: int| 0 <= k < i ==> v@[k]@ == es[k].0,
            decreases file_count - i,
        {
            v.push(disk_inode.entries[i].name.clone());
            i = i + 1;
        }
        v
    }

    /// The number of hard links that this directory holds to inode `inode_id`; where that
    /// inode is a directory, the first entry that names it is not counted.
    pub fn count_links(&self, fs: &EasyFileSystem, inode_id: u32) -> (r: usize)
        requires
            self.dir_in(fs@),
            (inode_id as int) < fs@.len(),
        ensures
            r == link_count(fs@, self.inode_id as int, inode_id),
    {
        let disk_inode = &fs.inodes[self.inode_id as usize];
        let ghost es = disk_inode@.2;
        let file_count = disk_inode.entries.len();
        let mut count: usize = 0;
        let mut i: usize = 0;
        while i < file_count
            invariant
                file_count == es.len(),
                es == entries_view(&disk_inode.entries),
                0 <= i <= file_count,
                count == count_entries(es.subrange(0, i as int), inode_id),
                count <= i,
            decreases file_count - i,
        {
            proof {
                lemma_count_entries_prefix(es, inode_id, i as int);
            }
            if disk_inode.entries[i].inode_id == inode_id {
                count = count + 1;
            }
            i = i + 1;
        }
        assert(es.subrange(0, file_count as int) =~= es);
        let is_dir = fs.inodes[inode_id as usize].is_dir();
        if is_dir && count > 0 {
            count - 1
        } else {
            count
        }
    }

    /// Appends an entry to directory `dir`.
    fn push_entry(fs: &mut EasyFileSystem, dir: u32, entry: DirEntry)
        requires
            (dir as int) < old(fs)@.len(),
        ensures
            final(fs)@ == old(fs)@.update(
                dir as int,
                (old(fs)@[dir as int].0, old(fs)@[dir as int].1, old(fs)@[dir as int].2.push(entry@)),
            ),
    {
        let ghost v = fs@;
        let ghost es = fs.inodes@[dir as int].entries;
        fs.inodes[dir as usize].entries.push(entry);
        assert(entries_view(&fs.inodes@[dir as int].entries) =~= v[dir as int].2.push(entry@));
        assert(fs@ =~= v.update(dir as int, (v[dir as int].0, v[dir as int].1, v[dir as int].2.push(entry@))));
    }

    /// Creates an empty file named `name` in this directory, unless an entry of that name is
    /// there already; the new inode gets the next inode id.
    pub fn create(&self, fs: &mut EasyFileSystem, name: &str) -> (r: Option<Inode>)
        requires
            self.dir_in(old(fs)@),
            old(fs)@.len() < u32::MAX,
        ensures
            ({
                let es = old(fs)@[self.inode_id as int].2;
                let n = old(fs)@.len();
                if find_entry(es, name@) < es.len() {
                    r == None::<Inode> && final(fs)@ == old(fs)@
                } else {
                    &&& r == Some(Inode { inode_id: n as u32 })
                    &&& final(fs)@ == old(fs)@.push((false, Seq::<u8>::empty(), Seq::<EntryView>::empty())).update(
                        self.inode_id as int,
                        (old(fs)@[self.inode_id as int].0, old(fs)@[self.inode_id as int].1, es.push((name@, n as u32))),
                    )
                }
            }),
    {
        let key = name.to_owned();
        if self.find_inode_id(&key, &fs.inodes[self.inode_id as usize]).is_some() {
            return None;
        }
        let new_inode_id = fs.alloc_inode();
        let ghost v0 = fs@;
        fs.inodes.push(DiskInode::initialize(DiskInodeType::File));
        assert(fs@ =~= v0.push((false, Seq::<u8>::empty(), Seq::<EntryView>::empty())));
        Self::push_entry(fs, self.inode_id, DirEntry { name: key, inode_id: new_inode_id });
        Some(Inode::new(new_inode_id))
    }

    /// Reads the bytes of this file from `offset` into `buf`, as many as fit in `buf` and are
    /// there; gives how many were read.
    pub fn read_at(&self, fs: &EasyFileSystem, offset: usize, buf: &mut [u8]) -> (r: usize)
        requires
            self.file_in(fs@),
            offset + old(buf)@.len() <= usize::MAX,
        ensures
            ({
                let d = fs@[self.inode_id as int].1;
                let end = read_end(d, offset as int, old(buf)@.len() as int);
                if offset >= end {
                    r == 0 && final(buf)@ == old(buf)@
                } else {
                    &&& r == end - offset
                    &&& final(buf)@ == d.subrange(offset as int, end) + old(buf)@.subrange(
                        r as int,
                        old(buf)@.len() as int,
                    )
                }
            }),
    {
        let data = &fs.inodes[self.inode_id as usize].data;
        let ghost d = data@;
        let ghost b0 = buf@;
        let len = buf.len();
        let mut end = offset + len;
        if end > data.len() {
            end = data.len();
        }
        if offset >= end {
            return 0;
        }
        let n = end - offset;
        let mut i: usize = 0;
        while i < n
            invariant
                n == end - offset,
                end <= d.len(),
                d == data@,
                n <= len,
                len == b0.len(),
                buf@.len() == len,
                0 <= i <= n,
                forall|k: int| 0 <= k < i ==> buf@[k] == d[offset + k],
                forall|k: int| i <= k < len ==> buf@[k] == b0[k],
            decreases n - i,
        {
            buf[i] = data[offset + i];
            i = i + 1;
        }
        assert(buf@ =~= d.subrange(offset as int, end as int) + b0.subrange(n as int, len as int));
        n
    }

    /// Writes `buf` into `data` at `offset`, growing `data` with zeros where it is too short.
    fn write_into(data: &mut Vec<u8>, offset: usize, buf: &[u8])
        requires
            offset + buf@.len() <= usize::MAX,
        ensures
            final(data)@ == write_bytes(old(data)@, offset as int, buf@),
    {
        let ghost d = data@;
        let end = offset + buf.len();
        while data.len() < end
            invariant
                end == offset + buf@.len(),
                d.len() <= data@.len(),
                data@.len() <= if d.len() > end { d.len() as int } else { end as int },
                forall|k: int| 0 <= k < d.len() ==> data@[k] == d[k],
                forall|k: int| d.len() <= k < data@.len() ==> data@[k] == 0u8,
            decreases end - data.len(),
        {
            data.push(0u8);
        }
        let mut i: usize = 0;
        while i < buf.len()
            invariant
                end == offset + buf@.len(),
                data@.len() == if d.len() > end { d.len() as int } else { end as int },
                0 <= i <= buf@.len(),
                forall|k: int| 0 <= k < data@.len() ==> data@[k] == if offset <= k < offset + i {
                    buf@[k - offset]
                } else if k < d.len() {
                    d[k]
                } else {
                    0u8
                },
            decreases buf.len() - i,
        {
            data.set(offset + i, buf[i]);
            i = i + 1;
        }
        assert(data@ =~= write_bytes(d, offset as int, buf@));
    }

    /// Writes `buf` into this file at `offset`, growing the file with zeros up to the end of
    /// the write where it is shorter; gives how many bytes were written.
    pub fn write_at(&self, fs: &mut EasyFileSystem, offset: usize, buf: &[u8]) -> (r: usize)
        requires
            self.file_in(old(fs)@),
            offset + buf@.len() <= u32::MAX,
        ensures
            r == buf@.len(),
            final(fs)@ == old(fs)@.update(
                self.inode_id as int,
                (
                    false,
                    write_bytes(old(fs)@[self.inode_id as int].1, offset as int, buf@),
                    old(fs)@[self.inode_id as int].2,
                ),
            ),
    {
        let ghost v = fs@;
        Self::write_into(&mut fs.inodes[self.inode_id as usize].data, offset, buf);
        assert(fs@ =~= v.update(
            self.inode_id as int,
            (false, write_bytes(v[self.inode_id as int].1, offset as int, buf@), v[self.inode_id as int].2),
        ));
        buf.len()
    }

    /// Empties this inode: its bytes and its entries go.
    pub fn clear(&self, fs: &mut EasyFileSystem)
        requires
            self.valid_in(old(fs)@),
        ensures
            final(fs)@ == old(fs)@.update(self.inode_id as int, cleared(old(fs)@[self.inode_id as int])),
    {
        let ghost v = fs@;
        fs.inodes[self.inode_id as usize].data.clear();
        fs.inodes[self.inode_id as usize].entries.clear();
        assert(entries_view(&fs.inodes@[self.inode_id as int].entries) =~= Seq::<EntryView>::empty());
        assert(fs@ =~= v.update(self.inode_id as int, cleared(v[self.inode_id as int])));
    }

    /// Position of the first entry named `name`.
    fn find_position(entries: &Vec<DirEntry>, name: &String) -> (r: Option<usize>)
        ensures
            ({
                let es = entries_view(entries);
                let k = find_entry(es, name@);
                r == if k < es.len() {
                    Some(k as usize)
                } else {
                    None::<usize>
                }
            }),
    {
        let ghost es = entries_view(entries);
        let mut i: usize = 0;
        while i < entries.len()
            invariant
                es == entries_view(entries),
                0 <= i <= entries.len(),
                forall|k: int| 0 <= k < i ==> es[k].0 != name@,
            decreases entries.len() - i,
        {
            if entries[i].name == *name {
                proof {
                    lemma_find_entry_unique(es, name@, i as int);
                }
                return Some(i);
            }
            i = i + 1;
        }
        proof {
            lemma_find_entry_unique(es, name@, i as int);
        }
        None
    }

    /// Adds to this directory an entry `new_name` that names the inode which the first entry
    /// `old_name` names.
    pub fn create_hard_link(&self, fs: &mut EasyFileSystem, new_name: &str, old_name: &str)
        requires
            self.dir_in(old(fs)@),
            find_entry(old(fs)@[self.inode_id as int].2, old_name@) < old(fs)@[self.inode_id as int].2.len(),
        ensures
            ({
                let d = old(fs)@[self.inode_id as int];
                let id = d.2[find_entry(d.2, old_name@)].1;
                final(fs)@ == old(fs)@.update(self.inode_id as int, (d.0, d.1, d.2.push((new_name@, id))))
            }),
    {
        let old_key = old_name.to_owned();
        let old_inode_id = match self.find_inode_id(&old_key, &fs.inodes[self.inode_id as usize]) {
            Some(id) => id,
            None => {
                assert(false);
                0
            },
        };
        Self::push_entry(fs, self.inode_id, DirEntry { name: new_name.to_owned(), inode_id: old_inode_id });
    }

    /// Removes from this directory the first entry named `name` (the last entry takes its
    /// place); where no link to the inode it named is left in this directory, that inode is
    /// emptied.
    pub fn remove_hard_link(&self, fs: &mut EasyFileSystem, name: &str)
        requires
            self.dir_in(old(fs)@),
            ({
                let es = old(fs)@[self.inode_id as int].2;
                let k = find_entry(es, name@);
                k < es.len() ==> (es[k].1 as int) < old(fs)@.len()
            }),
        ensures
            ({
                let es = old(fs)@[self.inode_id as int].2;
                let k = find_entry(es, name@);
                if k < es.len() {
                    final(fs)@ == after_unlink(old(fs)@, self.inode_id as int, k)
                } else {
                    final(fs)@ == old(fs)@
                }
            }),
    {
        let key = name.to_owned();
        proof {
            lemma_find_entry(old(fs)@[self.inode_id as int].2, name@);
        }
        let pos = match Self::find_position(&fs.inodes[self.inode_id as usize].entries, &key) {
            Some(p) => p,
            None => return,
        };
        let ghost v = fs@;
        let ghost es = v[self.inode_id as int].2;
        assert(es == entries_view(&fs.inodes@[self.inode_id as int].entries));
        assert(pos < fs.inodes@[self.inode_id as int].entries.len());
        let inode_id = fs.inodes[self.inode_id as usize].entries[pos].inode_id;
        fs.inodes[self.inode_id as usize].entries.swap_remove(pos);
        assert(entries_view(&fs.inodes@[self.inode_id as int].entries) =~= swap_out(es, pos as int));
        assert(fs@ =~= v.update(
            self.inode_id as int,
            (v[self.inode_id as int].0, v[self.inode_id as int].1, swap_out(es, pos as int)),
        ));
        let nlink = self.count_links(fs, inode_id);
        if nlink == 0 {
            let inode = Inode::new(inode_id);
            inode.clear(fs);
        }
    }
}

/// A file created under a name that the directory did not hold is found under that name.
pub proof fn law_create_then_find(es: Seq<EntryView>, name: Seq<char>, id: u32)
    requires
        find_entry(es, name) == es.len(),
    ensures
        find_entry(es.push((name, id)), name) == es.len(),
        es.push((name, id))[es.len() as int].1 == id,
{
    lemma_find_entry(es, name);
    lemma_find_entry_unique(es.push((name, id)), name, es.len() as int);
}

/// Reading back the bytes just written gives them: the read ends where the write ended and
/// fills the buffer with what was written.
pub proof fn law_write_then_read(d: Seq<u8>, offset: int, b: Seq<u8>)
    requires
        0 <= offset,
    ensures
        read_end(write_bytes(d, offset, b), offset, b.len() as int) == offset + b.len(),
        write_bytes(d, offset, b).subrange(offset, offset + b.len()) =~= b,
{
}

/// Writing leaves every byte outside the written range as it was.
pub proof fn law_write_keeps_other_bytes(d: Seq<u8>, offset: int, b: Seq<u8>, i: int)
    requires
        0 <= offset,
        0 <= i < d.len(),
        i < offset || offset + b.len() <= i,
    ensures
        write_bytes(d, offset, b)[i] == d[i],
{
}

/// A new hard link adds one to the links that the directory holds to its inode.
pub proof fn law_link_adds_one(fs: FsView, dir: int, new_name: Seq<char>, old_name: Seq<char>)
    requires
        0 <= dir < fs.len(),
        find_entry(fs[dir].2, old_name) < fs[dir].2.len(),
        (fs[dir].2[find_entry(fs[dir].2, old_name)].1 as int) < fs.len(),
    ensures
        ({
            let d = fs[dir];
            let id = d.2[find_entry(d.2, old_name)].1;
            let linked = fs.update(dir, (d.0, d.1, d.2.push((new_name, id))));
            link_count(linked, dir, id) == link_count(fs, dir, id) + 1
        }),
{
    let d = fs[dir];
    lemma_find_entry(d.2, old_name);
    let id = d.2[find_entry(d.2, old_name)].1;
    lemma_count_entries_push(d.2, (new_name, id), id);
    lemma_count_entries_positive(d.2, id, find_entry(d.2, old_name));
}

/// An entry that names `id` makes the count of entries naming `id` positive.
proof fn lemma_count_entries_positive(es: Seq<EntryView>, id: u32, k: int)
    requires
        0 <= k < es.len(),
        es[k].1 == id,
    ensures
        count_entries(es, id) > 0,
    decreases es.len(),
{
    if k < es.len() - 1 {
        lemma_count_entries_positive(es.drop_last(), id, k);
    }
}

/// Removing a hard link that was just added under a fresh name gives back the file system as
/// it was, wherever a link to the inode is still left (an inode left without links would be
/// emptied).
pub proof fn law_link_then_unlink(fs: FsView, dir: int, new_name: Seq<char>, old_name: Seq<char>)
    requires
        0 <= dir < fs.len(),
        find_entry(fs[dir].2, new_name) == fs[dir].2.len(),
        find_entry(fs[dir].2, old_name) < fs[dir].2.len(),
        (fs[dir].2[find_entry(fs[dir].2, old_name)].1 as int) < fs.len(),
        link_count(fs, dir, fs[dir].2[find_entry(fs[dir].2, old_name)].1) > 0,
    ensures
        ({
            let d = fs[dir];
            let id = d.2[find_entry(d.2, old_name)].1;
            let linked = fs.update(dir, (d.0, d.1, d.2.push((new_name, id))));
            let k = find_entry(linked[dir].2, new_name);
            &&& k < linked[dir].2.len()
            &&& after_unlink(linked, dir, k) == fs
        }),
{
    let d = fs[dir];
    lemma_find_entry(d.2, old_name);
    let id = d.2[find_entry(d.2, old_name)].1;
    let es2 = d.2.push((new_name, id));
    let linked = fs.update(dir, (d.0, d.1, es2));
    law_create_then_find(d.2, new_name, id);
    let k = d.2.len() as int;
    assert(linked[dir].2 == es2);
    assert(swap_out(es2, k) =~= d.2);
    let fs1 = linked.update(dir, (d.0, d.1, swap_out(es2, k)));
    assert(fs1 =~= fs);
}

} // verus!
