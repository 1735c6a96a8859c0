//! The kernel's index of hard links over a flat file system: which paths name which
//! file, the file's inode number and link count, and which paths were unlinked.
use vstd::prelude::*;
use tg_rcore_tutorial_easy_fs::OpenFlags;
use crate::syscall::{lseek_offset, seek_spec};

verus! {

/// `OpenFlags::WRONLY`.
pub const OPEN_WRONLY: u32 = 1;
/// `OpenFlags::RDWR`.
pub const OPEN_RDWR: u32 = 2;
/// `OpenFlags::CREATE`.
pub const OPEN_CREATE: u32 = 512;
/// `OpenFlags::TRUNC`.
pub const OPEN_TRUNC: u32 = 1024;
/// Every bit that `OpenFlags` defines.
pub const OPEN_FLAGS_ALL: u32 = 0x603;

/// `(readable, writable)` of open flags `bits`, the flags easy-fs does not define
/// dropped: nothing set means read only, `WRONLY` write only, anything else both.
pub open spec fn read_write_spec(bits: u32) -> (bool, bool) {
    if bits & OPEN_FLAGS_ALL == 0 {
        (true, false)
    } else if (bits & OPEN_FLAGS_ALL) & OPEN_WRONLY == OPEN_WRONLY {
        (false, true)
    } else {
        (true, true)
    }
}

/// Whether open flags `bits` contain every defined flag of `flag`.
pub open spec fn flag_set(bits: u32, flag: u32) -> bool {
    (bits & OPEN_FLAGS_ALL) & (flag & OPEN_FLAGS_ALL) == flag & OPEN_FLAGS_ALL
}

/// `OpenFlags::from_bits_truncate(bits).read_write()`: easy-fs keeps the defined bits
/// and answers read only for none, write only for `WRONLY`, read-write otherwise.
#[verifier::external_body]
fn flags_read_write(bits: u32) -> (r: (bool, bool))
    ensures
        r == read_write_spec(bits),
{
    OpenFlags::from_bits_truncate(bits).read_write()
}

/// `OpenFlags::from_bits_truncate(bits).contains(OpenFlags::from_bits_truncate(flag))`:
/// bitflags keeps the defined bits of both and tests that all of `flag` are in `bits`.
#[verifier::external_body]
fn flags_contain(bits: u32, flag: u32) -> (r: bool)
    ensures
        r == flag_set(bits, flag),
{
    OpenFlags::from_bits_truncate(bits).contains(OpenFlags::from_bits_truncate(flag))
}

/// What opening a path comes to once the index has been consulted: the file, the
/// easy-fs file that holds its data, the access the handle gets, and whether easy-fs
/// must create that data file if missing and empty it (`create`), or empty it (`trunc`).
pub struct OpenPlan {
    pub file: usize,
    pub data_path: String,
    pub readable: bool,
    pub writable: bool,
    pub create: bool,
    pub trunc: bool,
}

/// A map from path to a number, keyed without repetition.
pub struct PathMap {
    entries: Vec<(String, usize)>,
}

impl View for PathMap {
    type V = Map<Seq<char>, usize>;

    closed spec fn view(&self) -> Map<Seq<char>, usize> {
        Map::new(
            |t: Seq<char>| exists|i: int| 0 <= i < self.entries@.len() && #[trigger] self.entries@[i].0@ == t,
            |t: Seq<char>| self.entries@[choose|i: int| 0 <= i < self.entries@.len() && #[trigger] self.entries@[i].0@ == t].1,
        )
    }
}

impl PathMap {
    pub closed spec fn wf(&self) -> bool {
        forall|i: int, j: int| 0 <= i < j < self.entries@.len() ==> #[trigger] self.entries@[i].0@ != #[trigger] self.entries@[j].0@
    }

    proof fn lemma_at(&self, i: int)
        requires
            self.wf(),
            0 <= i < self.entries@.len(),
        ensures
            self@.contains_key(self.entries@[i].0@),
            self@[self.entries@[i].0@] == self.entries@[i].1,
    {
        let t = self.entries@[i].0@;
        assert(self@.contains_key(t));
        let j = choose|j: int| 0 <= j < self.entries@.len() && #[trigger] self.entries@[j].0@ == t;
        if j != i {
            if i < j {
                assert(self.entries@[i].0@ != self.entries@[j].0@);
            } else {
                assert(self.entries@[j].0@ != self.entries@[i].0@);
            }
        }
    }

    pub fn new() -> (r: PathMap)
        ensures
            r.wf(),
            r@ == Map::<Seq<char>, usize>::empty(),
    {
        let r = PathMap { entries: Vec::new() };
        assert(r@ =~= Map::<Seq<char>, usize>::empty());
        r
    }

    fn position(&self, path: &String) -> (r: Option<usize>)
        requires
            self.wf(),
        ensures
            match r {
                Some(i) => i < self.entries@.len() && self.entries@[i as int].0@ == path@,
                None => !self@.contains_key(path@),
            },
    {
        let mut i: usize = 0;
        while i < self.entries.len()
            invariant
                i <= self.entries@.len(),
                forall|j: int| 0 <= j < i ==> #[trigger] self.entries@[j].0@ != path@,
            decreases self.entries@.len() - i,
        {
            if self.entries[i].0 == *path {
                return Some(i);
            }
            i = i + 1;
        }
        None
    }

    /// The number stored for `path`.
    pub fn get(&self, path: &String) -> (r: Option<usize>)
        requires
            self.wf(),
        ensures
            r == (if self@.contains_key(path@) { Some(self@[path@]) } else { None::<usize> }),
    {
        match self.position(&path) {
            Some(i) => {
                proof {
                    self.lemma_at(i as int);
                }
                Some(self.entries[i].1)
            },
            None => None,
        }
    }

    /// Stores `value` for `path`.
    pub fn insert(&mut self, path: String, value: usize)
        requires
            old(self).wf(),
        ensures
            final(self).wf(),
            final(self)@ == old(self)@.insert(path@, value),
    {
        let ghost key = path@;
        let ghost old_map = self@;
        let ghost old_entries = self.entries@;
        match self.position(&path) {
            Some(i) => {
                self.entries.set(i, (path, value));
                assert forall|a: int, b: int| 0 <= a < b < self.entries@.len() implies #[trigger] self.entries@[a].0 != #[trigger] self.entries@[b].0 by {
                    assert(old_entries[a].0@ != old_entries[b].0@);
                }
                proof {
                    assert forall|t: Seq<char>| #[trigger] self@.contains_key(t) == old_map.insert(key, value).contains_key(t) by {
                        if old_map.contains_key(t) {
                            let j = choose|j: int| 0 <= j < old_entries.len() && #[trigger] old_entries[j].0@ == t;
                            assert(self.entries@[j].0@ == t);
                        }
                        if self@.contains_key(t) {
                            let j = choose|j: int| 0 <= j < self.entries@.len() && #[trigger] self.entries@[j].0@ == t;
                            if j != i {
                                assert(old_entries[j].0@ == t);
                            }
                        }
                    }
                    assert forall|t: Seq<char>| #[trigger] self@.contains_key(t) implies self@[t] == old_map.insert(key, value)[t] by {
                        let j = choose|j: int| 0 <= j < self.entries@.len() && #[trigger] self.entries@[j].0@ == t;
                        self.lemma_at(j);
                        if t != key {
                            assert(old_entries[j] == self.entries@[j]);
                            assert(old_entries[j].0@ == t);
                            let oj = choose|oj: int| 0 <= oj < old_entries.len() && #[trigger] old_entries[oj].0@ == t;
                            if oj != j {
                                if oj < j {
                                    assert(old_entries[oj].0@ != old_entries[j].0@);
                                } else {
                                    assert(old_entries[j].0@ != old_entries[oj].0@);
                                }
                            }
                        }
                    }
                    assert(self@ =~= old_map.insert(key, value));
                }
            },
            None => {
                self.entries.push((path, value));
                assert forall|a: int, b: int| 0 <= a < b < self.entries@.len() implies #[trigger] self.entries@[a].0 != #[trigger] self.entries@[b].0 by {
                    if b < old_entries.len() {
                        assert(old_entries[a].0@ != old_entries[b].0@);
                    } else {
                        assert(self.entries@[a] == old_entries[a]);
                        if old_entries[a].0@ == key {
                            assert(old_map.contains_key(key));
                        }
                    }
                }
                proof {
                    let n = old_entries.len() as int;
                    assert forall|t: Seq<char>| #[trigger] self@.contains_key(t) == old_map.insert(key, value).contains_key(t) by {
                        if old_map.contains_key(t) {
                            let j = choose|j: int| 0 <= j < old_entries.len() && #[trigger] old_entries[j].0@ == t;
                            assert(self.entries@[j].0@ == t);
                        }
                        if t == key {
                            assert(self.entries@[n].0@ == t);
                        }
                        if self@.contains_key(t) {
                            let j = choose|j: int| 0 <= j < self.entries@.len() && #[trigger] self.entries@[j].0@ == t;
                            if j != n {
                                assert(old_entries[j].0@ == t);
                            }
                        }
                    }
                    assert forall|t: Seq<char>| #[trigger] self@.contains_key(t) implies self@[t] == old_map.insert(key, value)[t] by {
                        let j = choose|j: int| 0 <= j < self.entries@.len() && #[trigger] self.entries@[j].0@ == t;
                        self.lemma_at(j);
                        if t != key {
                            assert(j != n);
                            assert(old_entries[j] == self.entries@[j]);
                            let oj = choose|oj: int| 0 <= oj < old_entries.len() && #[trigger] old_entries[oj].0@ == t;
                            if oj != j {
                                if oj < j {
                                    assert(old_entries[oj].0@ != old_entries[j].0@);
                                } else {
                                    assert(old_entries[j].0@ != old_entries[oj].0@);
                                }
                            }
                        } else {
                            self.lemma_at(n);
                        }
                    }
                    assert(self@ =~= old_map.insert(key, value));
                }
            },
        }
    }

    /// Forgets `path`.
    pub fn remove(&mut self, path: &String)
        requires
            old(self).wf(),
        ensures
            final(self).wf(),
            final(self)@ == old(self)@.remove(path@),
    {
        let ghost old_map = self@;
        let ghost old_entries = self.entries@;
        match self.position(&path) {
            Some(i) => {
                self.entries.remove(i);
                proof {
                    old_entries.remove_ensures(i as int);
                    let e = self.entries@;
                    assert forall|a: int| 0 <= a < e.len() implies #[trigger] e[a] == old_entries[if a < i { a } else { a + 1 }] by {}
                    assert forall|a: int, b: int| 0 <= a < b < e.len() implies #[trigger] e[a].0@ != #[trigger] e[b].0@ by {
                        let oa = if a < i { a } else { a + 1 };
                        let ob = if b < i { b } else { b + 1 };
                        assert(old_entries[oa].0@ != old_entries[ob].0@);
                    }
                    assert forall|t: Seq<char>| #[trigger] self@.contains_key(t) == old_map.remove(path@).contains_key(t) by {
                        if self@.contains_key(t) {
                            let j = choose|j: int| 0 <= j < e.len() && #[trigger] e[j].0@ == t;
                            let oj = if j < i { j } else { j + 1 };
                            assert(old_entries[oj].0@ == t);
                            if t == path@ {
                                if oj < i {
                                    assert(old_entries[oj].0@ != old_entries[i as int].0@);
                                } else {
                                    assert(old_entries[i as int].0@ != old_entries[oj].0@);
                                }
                            }
                        }
                        if old_map.contains_key(t) && t != path@ {
                            let oj = choose|oj: int| 0 <= oj < old_entries.len() && #[trigger] old_entries[oj].0@ == t;
                            let j = if oj < i { oj } else { oj - 1 };
                            assert(oj != i);
                            assert(e[j].0@ == t);
                        }
                    }
                    assert forall|t: Seq<char>| #[trigger] self@.contains_key(t) implies self@[t] == old_map.remove(path@)[t] by {
                        let j = choose|j: int| 0 <= j < e.len() && #[trigger] e[j].0@ == t;
                        self.lemma_at(j);
                        let oj = if j < i { j } else { j + 1 };
                        assert(old_entries[oj] == e[j]);
                        let wf_old = forall|a: int, b: int| 0 <= a < b < old_entries.len() ==> #[trigger] old_entries[a].0@ != #[trigger] old_entries[b].0@;
                        assert(wf_old);
                        let k = choose|k: int| 0 <= k < old_entries.len() && #[trigger] old_entries[k].0@ == t;
                        if k != oj {
                            if k < oj {
                                assert(old_entries[k].0@ != old_entries[oj].0@);
                            } else {
                                assert(old_entries[oj].0@ != old_entries[k].0@);
                            }
                        }
                    }
                    assert(self@ =~= old_map.remove(path@));
                }
            },
            None => {
                assert(old_map.remove(path@) =~= old_map);
            },
        }
    }
}


/// The type of a file, as `fstat` reports it.
#[derive(Clone, Copy, PartialEq, Eq, Structural)]
pub enum FileKind {
    Null,
    Dir,
    File,
}

/// What `fstat` reports of an open descriptor.
#[derive(Clone, Copy, PartialEq, Eq, Structural)]
pub struct Stat {
    pub dev: u64,
    pub ino: u64,
    pub mode: FileKind,
    pub nlink: u32,
}

/// The inode behind an open file: its number, whether it is a directory, its links,
/// and its size in bytes.
#[derive(Clone, Copy, PartialEq, Eq, Structural)]
pub struct InodeInfo {
    pub id: u64,
    pub is_dir: bool,
    pub nlink: u32,
    pub size: usize,
}

/// An open descriptor as the file calls see it.
#[derive(Clone, Copy, PartialEq, Eq, Structural)]
pub enum Descriptor {
    /// A file: its read/write offset, and its inode if it has one.
    File { offset: usize, inode: Option<InodeInfo> },
    /// A pipe end, or standard input or output.
    Other,
}

/// `fstat` of a descriptor: a file reports its inode's number, type and link count on
/// device 0; a file without an inode is refused (`None`); anything else reports a null
/// entry with every number 0.
pub open spec fn stat_spec(d: Descriptor) -> Option<Stat> {
    match d {
        Descriptor::File { offset: _, inode: None } => None,
        Descriptor::File { offset: _, inode: Some(inode) } => Some(Stat {
            dev: 0,
            ino: inode.id,
            mode: if inode.is_dir { FileKind::Dir } else { FileKind::File },
            nlink: inode.nlink,
        }),
        Descriptor::Other => Some(Stat { dev: 0, ino: 0, mode: FileKind::Null, nlink: 0 }),
    }
}

/// The record `fstat` writes for descriptor `d`, or `None` when it fails.
pub fn fstat_record(d: Descriptor) -> (r: Option<Stat>)
    ensures
        r == stat_spec(d),
{
    let mut stat = Stat { dev: 0, ino: 0, mode: FileKind::Null, nlink: 0 };
    match d {
        Descriptor::File { offset: _, inode } => match inode {
            None => {
                return None;
            },
            Some(inode) => {
                stat.ino = inode.id;
                stat.mode = if inode.is_dir { FileKind::Dir } else { FileKind::File };
                stat.nlink = inode.nlink;
            },
        },
        Descriptor::Other => {},
    }
    Some(stat)
}

/// The descriptor open at `fd` in `table`, if any.
pub open spec fn slot<T>(table: Seq<Option<T>>, fd: int) -> Option<T> {
    if 0 <= fd < table.len() { table[fd] } else { None }
}

/// `fstat(fd)`: `None` for a descriptor that is not open, else the record of
/// `fstat_record`.
pub fn fstat(table: &[Option<Descriptor>], fd: usize) -> (r: Option<Stat>)
    ensures
        r == (match slot(table@, fd as int) {
            None => None,
            Some(d) => stat_spec(d),
        }),
{
    if fd >= table.len() {
        return None;
    }
    match table[fd] {
        None => None,
        Some(d) => fstat_record(d),
    }
}

/// `close(fd)`: -1 for a descriptor that is not open; otherwise the slot is emptied
/// and the answer is 0.
pub fn close<T>(table: &mut Vec<Option<T>>, fd: usize) -> (r: isize)
    ensures
        slot(old(table)@, fd as int) is None ==> r == -1 && final(table)@ == old(table)@,
        slot(old(table)@, fd as int) is Some ==> r == 0 && final(table)@ == old(table)@.update(fd as int, None),
{
    if fd >= table.len() || table[fd].is_none() {
        return -1;
    }
    table.set(fd, None);
    0
}

/// Where `lseek` moves descriptor `d`: -1 unless it is a file with an inode and the
/// move is valid (see `seek_spec`).
pub open spec fn lseek_target(d: Option<Descriptor>, offset: isize, whence: usize) -> int {
    match d {
        Some(Descriptor::File { offset: current, inode: Some(inode) }) => seek_spec(whence, offset, current, inode.size),
        _ => -1,
    }
}

/// The sums `lseek` forms fit in an `isize`.
pub open spec fn lseek_fits(d: Option<Descriptor>, offset: isize, whence: usize) -> bool {
    match d {
        Some(Descriptor::File { offset: current, inode: Some(inode) }) => {
            &&& current <= isize::MAX
            &&& inode.size <= isize::MAX
            &&& whence == 1 ==> isize::MIN <= current + offset <= isize::MAX
            &&& whence == 2 ==> isize::MIN <= inode.size + offset <= isize::MAX
        },
        _ => true,
    }
}

/// `lseek(fd, offset, whence)`: -1 when `fd` is not an open file with an inode, when
/// `whence` is unknown, or when the new offset would be negative (nothing changes
/// then); otherwise the file's offset becomes the new offset, which is the answer.
pub fn lseek(table: &mut Vec<Option<Descriptor>>, fd: usize, offset: isize, whence: usize) -> (r: isize)
    requires
        lseek_fits(slot(old(table)@, fd as int), offset, whence),
    ensures
        r == lseek_target(slot(old(table)@, fd as int), offset, whence),
        r < 0 ==> final(table)@ == old(table)@,
        r >= 0 ==> final(table)@ == old(table)@.update(fd as int, Some(Descriptor::File {
            offset: r as usize,
            inode: slot(old(table)@, fd as int)->Some_0->File_inode,
        })),
{
    if fd >= table.len() {
        return -1;
    }
    match table[fd] {
        Some(Descriptor::File { offset: current, inode: Some(inode) }) => {
            let n = lseek_offset(whence, offset, current, inode.size);
            if n < 0 {
                return -1;
            }
            table.set(fd, Some(Descriptor::File { offset: n as usize, inode: Some(inode) }));
            n
        },
        _ => -1,
    }
}

/// The metadata of one logical file, shared by all its hard links.
pub struct FileMeta {
    /// Inode number, given out by the index.
    pub ino: u64,
    /// File type.
    pub mode: FileKind,
    /// Number of paths that name the file.
    pub nlink: u32,
    /// The easy-fs file that holds the data.
    backing_path: String,
}

pub struct MetaView {
    pub ino: u64,
    pub mode: FileKind,
    pub nlink: u32,
    pub backing: Seq<char>,
}

pub struct IndexView {
    /// The inode number the next file gets.
    pub next_ino: u64,
    /// Every file the index ever made, by file id.
    pub metas: Seq<MetaView>,
    /// The file id each visible path names.
    pub aliases: Map<Seq<char>, usize>,
    /// Paths that were unlinked and are hidden even if easy-fs still has them.
    pub hidden: Set<Seq<char>>,
}

/// Paths, their files, and unlinked paths.
pub struct FileIndex {
    next_ino: u64,
    metas: Vec<FileMeta>,
    aliases: PathMap,
    hidden: PathMap,
}

impl View for FileIndex {
    type V = IndexView;

    closed spec fn view(&self) -> IndexView {
        IndexView {
            next_ino: self.next_ino,
            metas: self.metas@.map_values(|m: FileMeta| MetaView { ino: m.ino, mode: m.mode, nlink: m.nlink, backing: m.backing_path@ }),
            aliases: self.aliases@,
            hidden: self.hidden@.dom(),
        }
    }
}

/// Inode numbers count up from 1 in the order files were made, and every path names
/// a file that exists.
pub open spec fn index_wf(v: IndexView) -> bool {
    &&& v.next_ino == v.metas.len() + 1
    &&& forall|i: int| 0 <= i < v.metas.len() ==> (#[trigger] v.metas[i]).ino == i + 1
    &&& forall|p: Seq<char>| #[trigger] v.aliases.contains_key(p) ==> v.aliases[p] < v.metas.len()
    &&& v.hidden.finite()
}

/// The index after a new file for `path` was made: `path` names it and is no longer hidden.
pub open spec fn after_alloc(v: IndexView, path: Seq<char>) -> IndexView {
    IndexView {
        next_ino: (v.next_ino + 1) as u64,
        metas: v.metas.push(MetaView { ino: v.next_ino, mode: FileKind::File, nlink: 1, backing: path }),
        aliases: v.aliases.insert(path, v.metas.len() as usize),
        hidden: v.hidden.remove(path),
    }
}

/// The file `path` names in the index, made first if easy-fs has `path` and it was not
/// unlinked; `on_disk` says whether easy-fs has `path`.
pub open spec fn ensure_spec(v: IndexView, path: Seq<char>, on_disk: bool) -> (IndexView, Option<usize>) {
    if v.aliases.contains_key(path) {
        (v, Some(v.aliases[path]))
    } else if v.hidden.contains(path) || !on_disk {
        (v, None)
    } else {
        (after_alloc(v, path), Some(v.metas.len() as usize))
    }
}

/// The index part of opening `path`: with `create`, the file it names or a new one;
/// otherwise as `ensure_spec`.
pub open spec fn open_spec(v: IndexView, path: Seq<char>, create: bool, on_disk: bool) -> (IndexView, Option<usize>) {
    if create {
        if v.aliases.contains_key(path) {
            (v, Some(v.aliases[path]))
        } else {
            (after_alloc(v, path), Some(v.metas.len() as usize))
        }
    } else {
        ensure_spec(v, path, on_disk)
    }
}

/// The easy-fs file to look `path` up as: the backing file of a linked path, nothing for
/// an unlinked one, `path` itself otherwise.
pub open spec fn resolve_spec(v: IndexView, path: Seq<char>) -> Option<Seq<char>> {
    if v.aliases.contains_key(path) {
        Some(v.metas[v.aliases[path] as int].backing)
    } else if v.hidden.contains(path) {
        None
    } else {
        Some(path)
    }
}

/// The file that linking from `src` would share, before its link count is raised.
pub open spec fn link_source(v: IndexView, src: Seq<char>, src_on_disk: bool) -> (IndexView, Option<usize>) {
    if v.aliases.contains_key(src) {
        (v, Some(v.aliases[src]))
    } else if src_on_disk {
        (after_alloc(v, src), Some(v.metas.len() as usize))
    } else {
        (v, None)
    }
}

/// `link(src, dst)`: refused (-1) when `src == dst`, when `dst` is taken or was unlinked,
/// or when `src` names nothing; otherwise `dst` names the file of `src`, whose link
/// count goes up by one, and the result is 0.
pub open spec fn link_spec(v: IndexView, src: Seq<char>, dst: Seq<char>, src_on_disk: bool) -> (IndexView, isize) {
    if src == dst || v.aliases.contains_key(dst) || v.hidden.contains(dst) {
        (v, -1isize)
    } else {
        let (v1, m) = link_source(v, src, src_on_disk);
        match m {
            None => (v, -1isize),
            Some(id) => {
                let meta = v1.metas[id as int];
                (IndexView {
                    metas: v1.metas.update(id as int, MetaView { nlink: (meta.nlink + 1) as u32, ..meta }),
                    aliases: v1.aliases.insert(dst, id),
                    hidden: v1.hidden.remove(dst),
                    ..v1
                }, 0isize)
            },
        }
    }
}

/// `unlink(path)`: refused (-1) when `path` names nothing; otherwise `path` stops
/// naming its file, is hidden, the file's link count goes down by one (not below 0),
/// and the result is 0.
pub open spec fn unlink_spec(v: IndexView, path: Seq<char>, on_disk: bool) -> (IndexView, isize) {
    let found: Option<(IndexView, usize)> = if v.aliases.contains_key(path) {
        Some((v, v.aliases[path]))
    } else if on_disk && !v.hidden.contains(path) {
        Some((after_alloc(v, path), v.metas.len() as usize))
    } else {
        None
    };
    match found {
        None => (v, -1isize),
        Some((v1, id)) => {
            let meta = v1.metas[id as int];
            (IndexView {
                metas: v1.metas.update(id as int, MetaView { nlink: if meta.nlink > 0 { (meta.nlink - 1) as u32 } else { 0u32 }, ..meta }),
                aliases: v1.aliases.remove(path),
                hidden: v1.hidden.insert(path),
                ..v1
            }, 0isize)
        },
    }
}

impl FileIndex {
    pub closed spec fn wf(&self) -> bool {
        &&& index_wf(self@)
        &&& self.aliases.wf()
        &&& self.hidden.wf()
    }

    /// A well-formed index has a well-formed view.
    pub proof fn lemma_wf(&self)
        requires
            self.wf(),
        ensures
            index_wf(self@),
    {
    }

    pub fn new() -> (r: FileIndex)
        ensures
            r.wf(),
            r@ == (IndexView { next_ino: 1, metas: Seq::empty(), aliases: Map::empty(), hidden: Set::empty() }),
    {
        let r = FileIndex { next_ino: 1, metas: Vec::new(), aliases: PathMap::new(), hidden: PathMap::new() };
        assert(r@.metas =~= Seq::<MetaView>::empty());
        assert(r@.hidden =~= Set::<Seq<char>>::empty());
        r
    }

    /// Number of files made so far.
    pub fn file_count(&self) -> (r: usize)
        ensures
            r == self@.metas.len(),
    {
        self.metas.len()
    }

    /// Inode number of file `id`.
    pub fn ino(&self, id: usize) -> (r: u64)
        requires
            id < self@.metas.len(),
        ensures
            r == self@.metas[id as int].ino,
    {
        self.metas[id].ino
    }

    /// Link count of file `id`.
    pub fn nlink(&self, id: usize) -> (r: u32)
        requires
            id < self@.metas.len(),
        ensures
            r == self@.metas[id as int].nlink,
    {
        self.metas[id].nlink
    }

    /// Type of file `id`.
    pub fn mode(&self, id: usize) -> (r: FileKind)
        requires
            id < self@.metas.len(),
        ensures
            r == self@.metas[id as int].mode,
    {
        self.metas[id].mode
    }

    /// The easy-fs file that holds the data of file `id`.
    pub fn backing_path(&self, id: usize) -> (r: String)
        requires
            id < self@.metas.len(),
        ensures
            r@ == self@.metas[id as int].backing,
    {
        self.metas[id].backing_path.clone()
    }

    /// The file `path` names.
    pub fn visible_meta(&self, path: &str) -> (r: Option<usize>)
        requires
            self.wf(),
        ensures
            r == (if self@.aliases.contains_key(path@) { Some(self@.aliases[path@]) } else { None::<usize> }),
    {
        let key = path.to_owned();
        self.aliases.get(&key)
    }

    /// Whether `path` was unlinked.
    pub fn path_hidden(&self, path: &str) -> (r: bool)
        requires
            self.wf(),
        ensures
            r == self@.hidden.contains(path@),
    {
        let key = path.to_owned();
        self.hidden.get(&key).is_some()
    }

    /// Makes a new file for `path`: the next inode number, one link, backed by `path`.
    pub fn alloc_meta(&mut self, path: &str) -> (r: usize)
        requires
            old(self).wf(),
            old(self)@.next_ino < u64::MAX,
        ensures
            final(self).wf(),
            r == old(self)@.metas.len(),
            final(self)@ == after_alloc(old(self)@, path@),
    {
        let ghost v = self@;
        let id = self.metas.len();
        self.metas.push(FileMeta { ino: self.next_ino, mode: FileKind::File, nlink: 1, backing_path: path.to_owned() });
        self.next_ino = self.next_ino + 1;
        self.aliases.insert(path.to_owned(), id);
        self.hidden.remove(&path.to_owned());
        proof {
            let w = self@;
            let a = after_alloc(v, path@);
            assert(w.metas =~= a.metas);
            assert(w.hidden =~= a.hidden);
            assert forall|p: Seq<char>| #[trigger] w.aliases.contains_key(p) implies w.aliases[p] < w.metas.len() by {
                if p != path@ {
                    assert(v.aliases.contains_key(p));
                }
            }
        }
        id
    }

    /// Sets the link count of file `id`.
    fn set_nlink(&mut self, id: usize, nlink: u32)
        requires
            old(self).wf(),
            id < old(self)@.metas.len(),
        ensures
            final(self).wf(),
            final(self)@ == (IndexView {
                metas: old(self)@.metas.update(id as int, MetaView { nlink, ..old(self)@.metas[id as int] }),
                ..old(self)@
            }),
    {
        let ghost v = self@;
        let mut tmp = FileMeta { ino: 0, mode: FileKind::Null, nlink: 0, backing_path: String::new() };
        self.metas.set_and_swap(id, &mut tmp);
        tmp.nlink = nlink;
        self.metas.set(id, tmp);
        proof {
            assert(self@.metas =~= v.metas.update(id as int, MetaView { nlink, ..v.metas[id as int] }));
        }
    }

    /// The file `path` names, made first if easy-fs has `path` (`on_disk`) and it was
    /// not unlinked; `None` if there is none.
    pub fn ensure_meta_for_path(&mut self, path: &str, on_disk: bool) -> (r: Option<usize>)
        requires
            old(self).wf(),
            old(self)@.next_ino < u64::MAX,
        ensures
            final(self).wf(),
            (final(self)@, r) == ensure_spec(old(self)@, path@, on_disk),
    {
        if let Some(id) = self.visible_meta(path) {
            return Some(id);
        }
        if self.path_hidden(path) || !on_disk {
            return None;
        }
        Some(self.alloc_meta(path))
    }

    /// The index part of opening `path`: with `create` the file `path` names, or a new
    /// one; otherwise as `ensure_meta_for_path`.
    pub fn open_meta(&mut self, path: &str, create: bool, on_disk: bool) -> (r: Option<usize>)
        requires
            old(self).wf(),
            old(self)@.next_ino < u64::MAX,
        ensures
            final(self).wf(),
            (final(self)@, r) == open_spec(old(self)@, path@, create, on_disk),
    {
        if create {
            if let Some(id) = self.visible_meta(path) {
                Some(id)
            } else {
                Some(self.alloc_meta(path))
            }
        } else {
            self.ensure_meta_for_path(path, on_disk)
        }
    }

    /// Opens `path` with open flags `flags` as far as the index goes; `on_disk` says
    /// whether easy-fs has `path`. With `CREATE` the file `path` names, or a new one;
    /// otherwise the file it names, made first if easy-fs has it and it was not
    /// unlinked; `None` if there is none.
    pub fn open_file(&mut self, path: &str, flags: u32, on_disk: bool) -> (r: Option<OpenPlan>)
        requires
            old(self).wf(),
            old(self)@.next_ino < u64::MAX,
        ensures
            final(self).wf(),
            final(self)@ == open_spec(old(self)@, path@, flag_set(flags, OPEN_CREATE), on_disk).0,
            match r {
                None => open_spec(old(self)@, path@, flag_set(flags, OPEN_CREATE), on_disk).1 is None,
                Some(plan) => {
                    &&& open_spec(old(self)@, path@, flag_set(flags, OPEN_CREATE), on_disk).1 == Some(plan.file)
                    &&& plan.file < final(self)@.metas.len()
                    &&& plan.data_path@ == final(self)@.metas[plan.file as int].backing
                    &&& (plan.readable, plan.writable) == read_write_spec(flags)
                    &&& plan.create == flag_set(flags, OPEN_CREATE)
                    &&& plan.trunc == flag_set(flags, OPEN_TRUNC)
                },
            },
    {
        let (readable, writable) = flags_read_write(flags);
        let create = flags_contain(flags, OPEN_CREATE);
        let trunc = flags_contain(flags, OPEN_TRUNC);
        match self.open_meta(path, create, on_disk) {
            None => None,
            Some(file) => {
                let data_path = self.backing_path(file);
                Some(OpenPlan { file, data_path, readable, writable, create, trunc })
            },
        }
    }

    /// The easy-fs file to look `path` up as, or `None` if `path` was unlinked.
    pub fn resolve(&self, path: &str) -> (r: Option<String>)
        requires
            self.wf(),
        ensures
            match r {
                Some(s) => resolve_spec(self@, path@) == Some(s@),
                None => resolve_spec(self@, path@) is None,
            },
    {
        if let Some(id) = self.visible_meta(path) {
            Some(self.backing_path(id))
        } else if self.path_hidden(path) {
            None
        } else {
            Some(path.to_owned())
        }
    }

    /// Makes `dst` a hard link to the file of `src`; `src_on_disk` says whether easy-fs
    /// has `src`. Returns 0, or -1 when refused.
    pub fn link(&mut self, src: &str, dst: &str, src_on_disk: bool) -> (r: isize)
        requires
            old(self).wf(),
            old(self)@.next_ino < u64::MAX,
            old(self)@.aliases.contains_key(src@) ==> old(self)@.metas[old(self)@.aliases[src@] as int].nlink < u32::MAX,
        ensures
            final(self).wf(),
            (final(self)@, r) == link_spec(old(self)@, src@, dst@, src_on_disk),
    {
        let ghost v = self@;
        if src.to_owned() == dst.to_owned() {
            return -1;
        }
        if self.visible_meta(dst).is_some() || self.path_hidden(dst) {
            return -1;
        }
        let id = if let Some(id) = self.visible_meta(src) {
            id
        } else if src_on_disk {
            self.alloc_meta(src)
        } else {
            return -1;
        };
        let ghost v1 = self@;
        let n = self.nlink(id);
        self.set_nlink(id, n + 1);
        self.aliases.insert(dst.to_owned(), id);
        self.hidden.remove(&dst.to_owned());
        proof {
            let w = self@;
            let target = link_spec(v, src@, dst@, src_on_disk).0;
            assert(w.metas =~= target.metas);
            assert(w.aliases =~= target.aliases);
            assert(w.hidden =~= target.hidden);
            assert forall|p: Seq<char>| #[trigger] w.aliases.contains_key(p) implies w.aliases[p] < w.metas.len() by {
                if p != dst@ {
                    assert(v1.aliases.contains_key(p));
                }
            }
            assert forall|i: int| 0 <= i < w.metas.len() implies (#[trigger] w.metas[i]).ino == i + 1 by {
                assert(v1.metas[i].ino == i + 1);
            }
        }
        0
    }

    /// Removes the link `path`; `on_disk` says whether easy-fs has `path`. Returns 0, or
    /// -1 when `path` names nothing.
    pub fn unlink(&mut self, path: &str, on_disk: bool) -> (r: isize)
        requires
            old(self).wf(),
            old(self)@.next_ino < u64::MAX,
        ensures
            final(self).wf(),
            (final(self)@, r) == unlink_spec(old(self)@, path@, on_disk),
    {
        let ghost v = self@;
        let id = if let Some(id) = self.visible_meta(path) {
            id
        } else if on_disk && !self.path_hidden(path) {
            self.alloc_meta(path)
        } else {
            return -1;
        };
        let ghost v1 = self@;
        self.aliases.remove(&path.to_owned());
        self.hidden.insert(path.to_owned(), 0);
        let n = self.nlink(id);
        if n > 0 {
            self.set_nlink(id, n - 1);
        }
        proof {
            let w = self@;
            let target = unlink_spec(v, path@, on_disk).0;
            assert(w.metas =~= target.metas);
            assert(w.aliases =~= target.aliases);
            assert(w.hidden =~= target.hidden);
            assert forall|p: Seq<char>| #[trigger] w.aliases.contains_key(p) implies w.aliases[p] < w.metas.len() by {
                assert(v1.aliases.contains_key(p));
            }
            assert forall|i: int| 0 <= i < w.metas.len() implies (#[trigger] w.metas[i]).ino == i + 1 by {
                assert(v1.metas[i].ino == i + 1);
            }
        }
        0
    }
}


/// Making a file keeps the index well formed.
pub proof fn lemma_alloc_wf(v: IndexView, path: Seq<char>)
    requires
        index_wf(v),
        v.next_ino < u64::MAX,
    ensures
        index_wf(after_alloc(v, path)),
{
    let a = after_alloc(v, path);
    assert forall|p: Seq<char>| #[trigger] a.aliases.contains_key(p) implies a.aliases[p] < a.metas.len() by {
        if p != path {
            assert(v.aliases.contains_key(p));
        }
    }
}

/// After a successful `link(src, dst)`, `dst` and `src` resolve to the same easy-fs file.
pub proof fn law_link_shares_file(v: IndexView, src: Seq<char>, dst: Seq<char>, src_on_disk: bool)
    requires
        index_wf(v),
        v.next_ino < u64::MAX,
        link_spec(v, src, dst, src_on_disk).1 == 0,
    ensures
        resolve_spec(link_spec(v, src, dst, src_on_disk).0, dst) is Some,
        resolve_spec(link_spec(v, src, dst, src_on_disk).0, dst) == resolve_spec(link_spec(v, src, dst, src_on_disk).0, src),
{
    let (v1, m) = link_source(v, src, src_on_disk);
    if !v.aliases.contains_key(src) {
        lemma_alloc_wf(v, src);
    }
    let id = m->Some_0;
    assert(v1.aliases.contains_key(src) && v1.aliases[src] == id);
}

/// Opening a hard link with `CREATE` opens the file the link names: the same file, and
/// so the same easy-fs data file, as its source.
pub proof fn law_create_opens_linked_file(v: IndexView, src: Seq<char>, dst: Seq<char>, src_on_disk: bool, on_disk: bool)
    requires
        index_wf(v),
        v.next_ino < u64::MAX,
        link_spec(v, src, dst, src_on_disk).1 == 0,
    ensures
        ({
            let linked = link_spec(v, src, dst, src_on_disk).0;
            &&& open_spec(linked, dst, true, on_disk).0 == linked
            &&& open_spec(linked, dst, true, on_disk).1 == Some(linked.aliases[src])
            &&& linked.metas[linked.aliases[src] as int].backing == linked.metas[linked.aliases[dst] as int].backing
        }),
{
    let (v1, m) = link_source(v, src, src_on_disk);
    if !v.aliases.contains_key(src) {
        lemma_alloc_wf(v, src);
    }
    assert(v1.aliases.contains_key(src) && v1.aliases[src] == m->Some_0);
}

/// After a successful `unlink(path)`, `path` resolves to nothing.
pub proof fn law_unlink_hides(v: IndexView, path: Seq<char>, on_disk: bool)
    requires
        unlink_spec(v, path, on_disk).1 == 0,
    ensures
        resolve_spec(unlink_spec(v, path, on_disk).0, path) is None,
{
}

/// Linking a file and then unlinking the new name gives the file its old link count back.
pub proof fn law_link_unlink_count(v: IndexView, src: Seq<char>, dst: Seq<char>, src_on_disk: bool, on_disk: bool)
    requires
        index_wf(v),
        v.next_ino < u64::MAX,
        link_spec(v, src, dst, src_on_disk).1 == 0,
        link_source(v, src, src_on_disk).0.metas[link_source(v, src, src_on_disk).1->Some_0 as int].nlink < u32::MAX,
    ensures
        ({
            let (v1, m) = link_source(v, src, src_on_disk);
            let id = m->Some_0;
            let after = unlink_spec(link_spec(v, src, dst, src_on_disk).0, dst, on_disk);
            &&& after.1 == 0
            &&& after.0.metas[id as int].nlink == v1.metas[id as int].nlink
            &&& after.0.aliases.contains_key(src) && after.0.aliases[src] == id
        }),
{
    let (v1, m) = link_source(v, src, src_on_disk);
    if !v.aliases.contains_key(src) {
        lemma_alloc_wf(v, src);
    }
    let id = m->Some_0;
    let l = link_spec(v, src, dst, src_on_disk).0;
    assert(l.aliases.contains_key(dst) && l.aliases[dst] == id);
    assert(v1.aliases.contains_key(src) && v1.aliases[src] == id);
}

/// No two files share an inode number.
pub proof fn law_inode_numbers_distinct(v: IndexView, i: int, j: int)
    requires
        index_wf(v),
        0 <= i < v.metas.len(),
        0 <= j < v.metas.len(),
        i != j,
    ensures
        v.metas[i].ino != v.metas[j].ino,
{
    assert(v.metas[i].ino == i + 1);
    assert(v.metas[j].ino == j + 1);
}

} // verus!
