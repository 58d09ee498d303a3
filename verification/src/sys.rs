//! Files as the system shows them: identity, manifests, no-overwrite renames,
//! locks and routes.
//!
//! Nothing here makes a system call. Each function takes what one reported and
//! says what is to be done next.
use vstd::prelude::*;
use vstd::string::*;
use vstd::utf8::*;

use crate::bytes::{append, copy};
use crate::mounts::{first_with, route_candidates, route_views, routes, MountView, Mounts};
use crate::table::{Key, Table};
use crate::text::{decimal, decimal_is_injective, number, trim, trimmed};

verus! {

// ---------------------------------------------------------------------------
// Identity
// ---------------------------------------------------------------------------

/// The device number of a file. On btrfs there is one per subvolume.
#[derive(Clone, Copy, PartialEq, Eq, Hash, Debug, Structural)]
pub struct Dev(pub u32, pub u32);

/// Which file it is, and through which mount it was reached.
#[derive(Clone, Copy, PartialEq, Eq, Debug, Structural)]
pub struct Ident {
    pub dev: Dev,
    pub ino: u64,
    pub mnt: u64,
}

/// The same file, through whatever mount.
pub open spec fn one_file(a: Ident, b: Ident) -> bool {
    a.dev == b.dev && a.ino == b.ino
}

impl Ident {
    /// Whether both are the same file, through whatever mount.
    pub fn same_file(&self, o: &Ident) -> (r: bool)
        ensures
            r == one_file(*self, *o),
    {
        self.dev == o.dev && self.ino == o.ino
    }
}

/// The attributes that matter, of those the filesystem reports.
#[derive(Clone, Copy, PartialEq, Eq, Debug, Structural)]
pub struct Attrs {
    pub mount_root: bool,
    pub immutable: bool,
    pub append: bool,
}

impl Attrs {
    /// Reads `statx` attribute bits. A bit that `mask` does not cover was not
    /// reported and reads as unset.
    pub fn masked(bits: u64, mask: u64) -> (a: Attrs)
        ensures
            a.mount_root == (bits & mask & 0x2000 != 0),
            a.immutable == (bits & mask & 0x10 != 0),
            a.append == (bits & mask & 0x20 != 0),
    {
        Attrs {
            mount_root: bits & mask & 0x2000 != 0,
            immutable: bits & mask & 0x10 != 0,
            append: bits & mask & 0x20 != 0,
        }
    }
}

/// A point in time as the filesystem keeps it: seconds and nanoseconds.
#[derive(Clone, Copy, PartialEq, Eq, Debug, Structural)]
pub struct Stamp {
    pub secs: i64,
    pub nanos: u32,
}

/// What `lstat` says of a file.
#[derive(Clone, Copy, PartialEq, Eq, Debug, Structural)]
pub struct Meta {
    pub id: Ident,
    pub mode: u32,
    pub uid: u32,
    pub nlink: u32,
    pub size: u64,
    pub mtime: Stamp,
    pub ctime: Stamp,
    pub attrs: Attrs,
}

/// The bits of a mode that hold the type.
pub const S_IFMT: u32 = 0o170000;

/// The type of a directory.
pub const S_IFDIR: u32 = 0o040000;

/// The type of a symbolic link.
pub const S_IFLNK: u32 = 0o120000;

/// The type of a plain file.
pub const S_IFREG: u32 = 0o100000;

/// The sticky bit.
pub const S_ISVTX: u32 = 0o1000;

impl Meta {
    /// A directory.
    pub open spec fn dir(self) -> bool {
        self.mode & S_IFMT == S_IFDIR
    }

    /// A symbolic link.
    pub open spec fn link(self) -> bool {
        self.mode & S_IFMT == S_IFLNK
    }

    /// A plain file.
    pub open spec fn reg(self) -> bool {
        self.mode & S_IFMT == S_IFREG
    }

    /// Sticky.
    pub open spec fn stuck(self) -> bool {
        self.mode & S_ISVTX != 0
    }

    /// Immutable, or open for appending only.
    pub open spec fn frozen(self) -> bool {
        self.attrs.immutable || self.attrs.append
    }

    /// The type is held by the four bits above the permissions, so a file is of one kind only. The
    /// sticky bit is the one below those. A file is frozen by either of two attributes.
    pub proof fn a_file_is_of_one_kind(self)
        ensures
            self.dir() <==> self.mode & 0o170000 == 0o040000,
            self.link() <==> self.mode & 0o170000 == 0o120000,
            self.reg() <==> self.mode & 0o170000 == 0o100000,
            !(self.dir() && self.link()) && !(self.dir() && self.reg()) && !(self.link()
                && self.reg()),
            self.stuck() <==> self.mode & 0o1000 != 0,
            self.frozen() <==> self.attrs.immutable || self.attrs.append,
    {
    }

    pub fn is_dir(&self) -> (r: bool)
        ensures
            r == self.dir(),
    {
        self.mode & S_IFMT == S_IFDIR
    }

    pub fn is_symlink(&self) -> (r: bool)
        ensures
            r == self.link(),
    {
        self.mode & S_IFMT == S_IFLNK
    }

    pub fn is_reg(&self) -> (r: bool)
        ensures
            r == self.reg(),
    {
        self.mode & S_IFMT == S_IFREG
    }

    /// Whether the file is the root of a mount. Never true where the kernel
    /// does not report it.
    pub fn is_mount_root(&self) -> (r: bool)
        ensures
            r == self.attrs.mount_root,
    {
        self.attrs.mount_root
    }

    pub fn sticky(&self) -> (r: bool)
        ensures
            r == self.stuck(),
    {
        self.mode & S_ISVTX != 0
    }
}

// ---------------------------------------------------------------------------
// The manifest
// ---------------------------------------------------------------------------

/// A file by device and inode number. An inode number alone is only unique
/// within one device.
#[derive(Clone, Copy, PartialEq, Eq, Debug, Structural)]
pub struct FileKey {
    pub dev: Dev,
    pub ino: u64,
}

impl Key for FileKey {
    type V = FileKey;

    open spec fn key(self) -> FileKey {
        self
    }

    open spec fn spot(v: FileKey) -> u64 {
        v.ino
    }

    fn hash_of(&self) -> (h: u64) {
        self.ino
    }

    fn is(&self, other: &Self) -> (r: bool) {
        *self == *other
    }
}

/// The key of a file.
pub open spec fn key_of(m: Meta) -> FileKey {
    FileKey { dev: m.id.dev, ino: m.id.ino }
}

/// A file's size and modification time. Not its change time: unlinking one
/// name of a hard-linked file changes that one for all the others.
#[derive(Clone, Copy, PartialEq, Eq, Debug, Structural)]
pub struct Content {
    pub size: u64,
    pub mtime: Stamp,
}

/// What a walk saw at a path.
#[derive(Clone, Copy, PartialEq, Eq, Debug, Structural)]
pub struct Record {
    pub file: FileKey,
    pub kind: u32,
    pub content: Content,
    /// Still to be relied on: not found missing or different in the copy.
    pub live: bool,
}

/// What is recorded of a file.
pub open spec fn record_of(m: Meta) -> Record {
    Record {
        file: key_of(m),
        kind: m.mode & S_IFMT,
        content: Content { size: m.size, mtime: m.mtime },
        live: true,
    }
}

/// What a walk saw, by file and by path relative to the top of the tree.
pub struct Manifest {
    links: Table<FileKey, Content>,
    entries: Table<Vec<u8>, Record>,
}

/// Whether a copy holds what was recorded: the same type and, but for a
/// directory, the same size and modification time.
pub open spec fn same_copy(have: Record, want: Record) -> bool {
    have.kind == want.kind && (want.kind == S_IFDIR || have.content == want.content)
}

/// The records that a finished copy bears out; the others no longer count.
pub open spec fn borne_out(
    own: Map<Seq<u8>, Record>,
    copied: Map<Seq<u8>, Record>,
) -> Map<Seq<u8>, Record> {
    Map::new(
        |k: Seq<u8>| own.contains_key(k),
        |k: Seq<u8>|
            Record {
                live: own[k].live && copied.contains_key(k) && same_copy(copied[k], own[k]),
                ..own[k]
            },
    )
}

/// Whether the file at a path may go: the walk saw just this file there, of
/// this type and, but for a directory, with this content, and nothing has
/// spoken against it since.
pub open spec fn vouched(entries: Map<Seq<u8>, Record>, path: Seq<u8>, m: Meta) -> bool {
    entries.contains_key(path) && {
        let r = entries[path];
        r.live && r.file == key_of(m) && r.kind == m.mode & S_IFMT && (r.kind == S_IFDIR || r.content
            == Content { size: m.size, mtime: m.mtime })
    }
}

/// A walk vouches for just what it saw: at that path the same file, of the same
/// type and, but for a directory, with the same size and modification time. For a
/// path that it did not see it does not vouch.
pub proof fn a_walk_vouches_for_what_it_saw(
    entries: Map<Seq<u8>, Record>,
    path: Seq<u8>,
    saw: Meta,
    now: Meta,
)
    ensures
        vouched(entries.insert(path, record_of(saw)), path, now) <==> {
            &&& now.id.dev == saw.id.dev && now.id.ino == saw.id.ino
            &&& now.mode & 0o170000 == saw.mode & 0o170000
            &&& now.mode & 0o170000 == 0o040000 || (now.size == saw.size && now.mtime == saw.mtime)
        },
        !entries.contains_key(path) ==> !vouched(entries, path, now),
{
}

/// A finished copy bears out just what it holds: a path that it lacks, or has with
/// another type or, but for a directory, another size or modification time, is
/// not vouched for any more; every other path is as it was.
pub proof fn a_copy_bears_out_what_it_holds(
    own: Map<Seq<u8>, Record>,
    copied: Map<Seq<u8>, Record>,
    path: Seq<u8>,
    m: Meta,
)
    ensures
        vouched(borne_out(own, copied), path, m) <==> {
            &&& vouched(own, path, m)
            &&& copied.contains_key(path)
            &&& copied[path].kind == own[path].kind
            &&& own[path].kind == 0o040000 || (copied[path].content.size == own[path].content.size
                && copied[path].content.mtime == own[path].content.mtime)
        },
        borne_out(own, copied).dom() == own.dom(),
{
    assert(borne_out(own, copied).dom() =~= own.dom());
}

impl Manifest {
    /// The files seen, each with its content.
    pub closed spec fn links(self) -> Map<FileKey, Content> {
        self.links.map()
    }

    /// The paths seen, each with what was there.
    pub closed spec fn entries(self) -> Map<Seq<u8>, Record> {
        self.entries.map()
    }

    /// Both tables are in order.
    pub closed spec fn wf(self) -> bool {
        self.links.wf() && self.entries.wf()
    }

    /// Nothing seen yet.
    pub fn new() -> (m: Manifest)
        ensures
            m.wf(),
            m.links() == Map::<FileKey, Content>::empty(),
            m.entries() == Map::<Seq<u8>, Record>::empty(),
    {
        Manifest { links: Table::new(), entries: Table::new() }
    }

    /// Whether the file was seen, somewhere, with just this content.
    pub fn unchanged(&self, m: &Meta) -> (r: bool)
        requires
            self.wf(),
        ensures
            r == (self.links().contains_key(key_of(*m)) && self.links()[key_of(*m)] == Content {
                size: m.size,
                mtime: m.mtime,
            }),
    {
        let key = FileKey { dev: m.id.dev, ino: m.id.ino };
        match self.links.get(&key) {
            Some(c) => c.size == m.size && c.mtime == m.mtime,
            None => false,
        }
    }

    /// Whether the file was seen, with whatever content.
    pub fn holds(&self, m: &Meta) -> (r: bool)
        requires
            self.wf(),
        ensures
            r == self.links().contains_key(key_of(*m)),
    {
        self.links.get(&FileKey { dev: m.id.dev, ino: m.id.ino }).is_some()
    }

    /// Whether the file at `path`, relative to the top of the tree, may go.
    pub fn vouches(&self, path: &Vec<u8>, m: &Meta) -> (r: bool)
        requires
            self.wf(),
        ensures
            r == vouched(self.entries(), path@, *m),
    {
        match self.entries.get(path) {
            None => false,
            Some(r) => r.live && r.file == (FileKey { dev: m.id.dev, ino: m.id.ino }) && r.kind
                == m.mode & S_IFMT && (r.kind == S_IFDIR || (r.content.size == m.size
                && r.content.mtime == m.mtime)),
        }
    }

    /// Takes a file in; says whether it was seen for the first time.
    pub fn link(&mut self, m: &Meta) -> (fresh: bool)
        requires
            old(self).wf(),
        ensures
            final(self).wf(),
            fresh == !old(self).links().contains_key(key_of(*m)),
            final(self).links() == old(self).links().insert(
                key_of(*m),
                Content { size: m.size, mtime: m.mtime },
            ),
            final(self).entries() == old(self).entries(),
    {
        let key = FileKey { dev: m.id.dev, ino: m.id.ino };
        let fresh = self.links.get(&key).is_none();
        self.links.insert(key, Content { size: m.size, mtime: m.mtime });
        fresh
    }

    /// Records what is at a path.
    pub fn record(&mut self, path: Vec<u8>, m: &Meta)
        requires
            old(self).wf(),
        ensures
            final(self).wf(),
            final(self).links() == old(self).links(),
            final(self).entries() == old(self).entries().insert(path@, record_of(*m)),
    {
        let r = Record {
            file: FileKey { dev: m.id.dev, ino: m.id.ino },
            kind: m.mode & S_IFMT,
            content: Content { size: m.size, mtime: m.mtime },
            live: true,
        };
        self.entries.insert(path, r);
    }

    /// Holds the manifest against a walk of the finished copy: a path that the
    /// copy lacks, or has otherwise, is not relied on any more.
    pub fn verify_copy(&mut self, copied: &Manifest)
        requires
            old(self).wf(),
            copied.wf(),
        ensures
            final(self).wf(),
            final(self).links() == old(self).links(),
            final(self).entries() == borne_out(old(self).entries(), copied.entries()),
    {
        let ghost was = self.entries;
        let n: usize = self.entries.len();
        let mut i: usize = 0;
        while i < n
            invariant
                i <= n,
                n == was.items().len(),
                was.wf(),
                self.entries.wf(),
                copied.wf(),
                self.links == old(self).links,
                self.entries.items().len() == n,
                forall|k: int|
                    #![trigger self.entries.items()[k]]
                    0 <= k < n ==> self.entries.items()[k].0 == was.items()[k].0,
                forall|k: int|
                    #![trigger self.entries.items()[k]]
                    i <= k < n ==> self.entries.items()[k].1 == was.items()[k].1,
                forall|k: int|
                    #![trigger self.entries.items()[k]]
                    0 <= k < i ==> self.entries.items()[k].1 == (Record {
                        live: was.items()[k].1.live && copied.entries().contains_key(
                            was.items()[k].0,
                        ) && same_copy(
                            copied.entries()[was.items()[k].0],
                            was.items()[k].1,
                        ),
                        ..was.items()[k].1
                    }),
            decreases n - i,
        {
            let mut r: Record = self.entries.value_at(i);
            assert(self.entries.items()[i as int].0 == was.items()[i as int].0);
            let found = copied.entries.get(self.entries.key_at(i));
            let ok = match found {
                None => false,
                Some(c) => c.kind == r.kind && (r.kind == S_IFDIR || c.content == r.content),
            };
            r = Record { file: r.file, kind: r.kind, content: r.content, live: r.live && ok };
            self.entries.set_at(i, r);
            i = i + 1;
        }
        proof {
            let got = self.entries;
            let want = borne_out(was.map(), copied.entries());
            assert forall|k: Seq<u8>| got.map().contains_key(k) == want.contains_key(k) by {
                if got.has(k) {
                    let j = got.place(k);
                    assert(got.items()[j].0 == k);
                    assert(was.items()[j].0 == k);
                }
                if was.has(k) {
                    let j = was.place(k);
                    assert(was.items()[j].0 == k);
                    assert(got.items()[j].0 == k);
                }
            }
            assert forall|k: Seq<u8>| got.map().contains_key(k) implies got.map()[k] == want[k] by {
                let j = got.place(k);
                assert(got.items()[j].0 == k);
                assert(was.items()[j].0 == k);
                let l = was.place(k);
                assert(was.items()[l].0 == k);
                was.one_place(j, l);
            }
            assert(got.map() =~= want);
        }
    }
}

impl Default for Manifest {
    fn default() -> (m: Manifest)
        ensures
            m.wf(),
            m.links() == Map::<FileKey, Content>::empty(),
            m.entries() == Map::<Seq<u8>, Record>::empty(),
    {
        Manifest::new()
    }
}

// ---------------------------------------------------------------------------
// Renames that overwrite nothing
// ---------------------------------------------------------------------------

/// The error numbers that decide something.
pub const ENOENT: i32 = 2;

pub const EACCES: i32 = 13;

pub const EAGAIN: i32 = 11;

pub const EEXIST: i32 = 17;

pub const EXDEV: i32 = 18;

pub const ENOTDIR: i32 = 20;

pub const EINVAL: i32 = 22;

pub const EROFS: i32 = 30;

pub const ENOSYS: i32 = 38;

pub const ELOOP: i32 = 40;

pub const EOPNOTSUPP: i32 = 95;

/// Renames without overwriting, on a filesystem that may not know how. Where
/// `rename2` (which refuses an existing target) is itself refused with
/// `EINVAL`, the target is looked for, and only where it is absent a plain
/// rename follows; where it is there, the answer is `EEXIST`. Neither the look nor
/// the plain rename is made anywhere else, and none of the three twice.
pub fn noreplace_with<F, G, H>(rename2: F, taken: G, rename: H) -> (r: Result<(), i32>) where
    F: FnOnce() -> Result<(), i32>,
    G: FnOnce() -> Result<bool, i32>,
    H: FnOnce() -> Result<(), i32>,

    requires
        rename2.requires(()),
        rename2.ensures((), Err::<(), i32>(EINVAL)) ==> taken.requires(()),
        rename2.ensures((), Err::<(), i32>(EINVAL)) && taken.ensures((), Ok::<bool, i32>(false))
            ==> rename.requires(()),
    ensures
        exists|first: Result<(), i32>| #[trigger]
            rename2.ensures((), first) && (match first {
                Ok(()) => r == Ok::<(), i32>(()),
                Err(e) => if e != EINVAL {
                    r == Err::<(), i32>(e)
                } else {
                    exists|there: Result<bool, i32>| #[trigger]
                        taken.ensures((), there) && (match there {
                            Ok(true) => r == Err::<(), i32>(EEXIST),
                            Ok(false) => rename.ensures((), r),
                            Err(e) => r == Err::<(), i32>(e),
                        })
                },
            }),
{
    match rename2() {
        Ok(()) => Ok(()),
        Err(e) => {
            if e == EINVAL {
                match taken() {
                    Ok(true) => Err(EEXIST),
                    Ok(false) => rename(),
                    Err(x) => Err(x),
                }
            } else {
                Err(e)
            }
        },
    }
}

// ---------------------------------------------------------------------------
// Locks
// ---------------------------------------------------------------------------

/// A lock on a trash directory: shared by those who write to it, exclusive for
/// those who delete from it.
#[derive(Clone, Copy, PartialEq, Eq, Debug, Structural)]
pub enum Lock {
    Shared,
    Exclusive,
}

/// What to do about a lock.
#[derive(Clone, Copy, PartialEq, Eq, Debug, Structural)]
pub enum LockStep {
    /// It is held.
    Held,
    /// The filesystem has no locks: go on without one.
    Unsupported,
    /// Say that another is waited for, and ask again, waiting.
    Wait,
    Fail,
}

/// A filesystem without locks answers with one of these.
pub open spec fn no_locks(errno: i32) -> bool {
    errno == ENOSYS || errno == EOPNOTSUPP || errno == EINVAL
}

/// What the answer to a request for a lock means. The first request does not
/// wait; only its refusal because of another holder leads to one that does.
pub open spec fn lock_answer(waited: bool, answer: Result<(), i32>) -> LockStep {
    match answer {
        Ok(()) => LockStep::Held,
        Err(e) => if !waited && e == EAGAIN {
            LockStep::Wait
        } else if no_locks(e) {
            LockStep::Unsupported
        } else {
            LockStep::Fail
        },
    }
}

/// Decides what the answer to a request for a lock means.
pub fn lock(waited: bool, answer: Result<(), i32>) -> (r: LockStep)
    ensures
        r == lock_answer(waited, answer),
{
    match answer {
        Ok(()) => LockStep::Held,
        Err(e) => {
            if !waited && e == EAGAIN {
                LockStep::Wait
            } else if e == ENOSYS || e == EOPNOTSUPP || e == EINVAL {
                LockStep::Unsupported
            } else {
                LockStep::Fail
            }
        },
    }
}

/// A lock that is granted is held. One that another holds is waited for, once;
/// on a filesystem without locks there is none; any other answer is a failure.
pub proof fn a_lock_is_held_or_waited_for(waited: bool, e: i32)
    ensures
        lock_answer(waited, Ok(())) == LockStep::Held,
        lock_answer(waited, Err(e)) == (if e == 11 && !waited {
            LockStep::Wait
        } else if e == 38 || e == 95 || e == 22 {
            LockStep::Unsupported
        } else {
            LockStep::Fail
        }),
{
}

// ---------------------------------------------------------------------------
// Routes
// ---------------------------------------------------------------------------

/// What a directory opened through a candidate turned out to be.
#[derive(Clone, Copy, PartialEq, Eq, Debug, Structural)]
pub enum Probe {
    CannotOpen,
    CannotStat,
    Is(Ident),
}

/// What a candidate is good for.
#[derive(Clone, Copy, PartialEq, Eq, Debug, Structural)]
pub enum Verdict {
    /// Both directories are the ones that were wanted, on one mount.
    Use,
    Next,
    Fail,
}

/// A directory opened through mount `mnt` is the one that was wanted.
pub open spec fn arrived(got: Ident, want: Ident, mnt: u64) -> bool {
    one_file(got, want) && got.mnt == mnt
}

/// What to do with a candidate: each directory opened through it must be the
/// one that was wanted, reached through just this mount.
pub open spec fn verdict_of(mnt: u64, a: Probe, want_a: Ident, b: Probe, want_b: Ident) -> Verdict {
    if a == Probe::CannotOpen || b == Probe::CannotOpen {
        Verdict::Next
    } else {
        match a {
            Probe::Is(x) => if !arrived(x, want_a, mnt) {
                Verdict::Next
            } else {
                match b {
                    Probe::Is(y) => if arrived(y, want_b, mnt) {
                        Verdict::Use
                    } else {
                        Verdict::Next
                    },
                    _ => Verdict::Fail,
                }
            },
            _ => Verdict::Fail,
        }
    }
}

/// Decides what to do with a candidate.
pub fn judge(mnt: u64, a: Probe, want_a: Ident, b: Probe, want_b: Ident) -> (v: Verdict)
    ensures
        v == verdict_of(mnt, a, want_a, b, want_b),
{
    match (a, b) {
        (Probe::CannotOpen, _) => Verdict::Next,
        (_, Probe::CannotOpen) => Verdict::Next,
        (Probe::CannotStat, _) => Verdict::Fail,
        (Probe::Is(x), Probe::CannotStat) => {
            if x.same_file(&want_a) && x.mnt == mnt {
                Verdict::Fail
            } else {
                Verdict::Next
            }
        },
        (Probe::Is(x), Probe::Is(y)) => {
            if x.same_file(&want_a) && x.mnt == mnt && y.same_file(&want_b) && y.mnt == mnt {
                Verdict::Use
            } else {
                Verdict::Next
            }
        },
    }
}

/// A route is used where both directories are what was wanted, through its mount.
/// One that does not lead there, or cannot be opened, gives way to the next; only
/// what cannot be looked at is a failure.
pub proof fn a_route_that_leads_there_is_used(
    mnt: u64,
    a: Probe,
    want_a: Ident,
    b: Probe,
    want_b: Ident,
)
    ensures
        verdict_of(mnt, a, want_a, b, want_b) == Verdict::Use <==> {
            &&& a is Is && a->Is_0.dev == want_a.dev && a->Is_0.ino == want_a.ino && a->Is_0.mnt
                == mnt
            &&& b is Is && b->Is_0.dev == want_b.dev && b->Is_0.ino == want_b.ino && b->Is_0.mnt
                == mnt
        },
        verdict_of(mnt, a, want_a, b, want_b) == Verdict::Fail ==> a is CannotStat || b
            is CannotStat,
        a is CannotOpen || b is CannotOpen ==> verdict_of(mnt, a, want_a, b, want_b)
            == Verdict::Next,
        a is CannotStat && !(b is CannotOpen) ==> verdict_of(mnt, a, want_a, b, want_b)
            == Verdict::Fail,
{
}

/// A route is used only where both directories were opened through one and the
/// same mount and are the ones that were wanted: a covered mount never passes.
pub proof fn used_routes_are_true(mnt: u64, a: Probe, want_a: Ident, b: Probe, want_b: Ident)
    requires
        verdict_of(mnt, a, want_a, b, want_b) == Verdict::Use,
    ensures
        a matches Probe::Is(x) && one_file(x, want_a) && x.mnt == mnt,
        b matches Probe::Is(y) && one_file(y, want_b) && y.mnt == mnt,
{
}

/// The candidates whose mounts are not read-only.
pub open spec fn writable(
    ms: Seq<MountView>,
    c: Seq<(u64, Seq<u8>, Seq<u8>)>,
) -> Seq<(u64, Seq<u8>, Seq<u8>)>
    decreases c.len(),
{
    if c.len() == 0 {
        Seq::empty()
    } else {
        let front = writable(ms, c.drop_last());
        if first_with(ms, c.last().0) matches Some(m) && m.ro {
            front
        } else {
            front.push(c.last())
        }
    }
}

/// The mounts through which directory `a` (with identity `a_id`) and directory
/// `b` may both be opened, with the paths to open. A read-only mount is passed
/// over: a view that someone made read-only is not gone round.
pub fn route(ms: &Mounts, a: &[u8], a_id: Ident, b: &[u8], b_id: Ident) -> (out: Vec<
    (u64, Vec<u8>, Vec<u8>),
>)
    ensures
        route_views(out@) == writable(ms@, routes(ms@, a_id.mnt, a@, b_id.mnt, b@)),
{
    let all = route_candidates(ms, a_id.mnt, a, b_id.mnt, b);
    let ghost full = route_views(all@);
    let mut out: Vec<(u64, Vec<u8>, Vec<u8>)> = Vec::new();
    let mut i: usize = 0;
    assert(route_views(out@) =~= writable(ms@, full.take(0)));
    while i < all.len()
        invariant
            i <= all.len(),
            full == route_views(all@),
            route_views(out@) =~= writable(ms@, full.take(i as int)),
        decreases all.len() - i,
    {
        assert(full.take(i + 1).drop_last() =~= full.take(i as int));
        assert(full.take(i + 1).last() == (all@[i as int].0, all@[i as int].1@, all@[i as int].2@));
        let ro = match ms.by_id(all[i].0) {
            Some(m) => m.ro,
            None => false,
        };
        if !ro {
            let ghost before = route_views(out@);
            let c = (all[i].0, copy(all[i].1.as_slice()), copy(all[i].2.as_slice()));
            out.push(c);
            assert(route_views(out@) =~= before.push((c.0, c.1@, c.2@)));
        }
        i = i + 1;
    }
    assert(full.take(full.len() as int) =~= full);
    out
}

proof fn writable_is_writable(ms: Seq<MountView>, c: Seq<(u64, Seq<u8>, Seq<u8>)>, i: int)
    requires
        0 <= i < writable(ms, c).len(),
    ensures
        !(first_with(ms, writable(ms, c)[i].0) matches Some(m) && m.ro),
        c.contains(writable(ms, c)[i]),
    decreases c.len(),
{
    if c.len() > 0 {
        let front = writable(ms, c.drop_last());
        if i < front.len() {
            writable_is_writable(ms, c.drop_last(), i);
            let r = writable(ms, c)[i];
            let k = choose|k: int| 0 <= k < c.drop_last().len() && c.drop_last()[k] == r;
            assert(c[k] == r);
        } else {
            assert(c[c.len() - 1] == writable(ms, c)[i]);
        }
    }
}

/// No rename is ever routed through a read-only mount.
pub proof fn routes_are_writable(
    ms: Seq<MountView>,
    am: u64,
    a: Seq<u8>,
    bm: u64,
    b: Seq<u8>,
    i: int,
)
    requires
        0 <= i < writable(ms, routes(ms, am, a, bm, b)).len(),
    ensures
        !(first_with(ms, writable(ms, routes(ms, am, a, bm, b))[i].0) matches Some(m) && m.ro),
        routes(ms, am, a, bm, b).contains(writable(ms, routes(ms, am, a, bm, b))[i]),
{
    writable_is_writable(ms, routes(ms, am, a, bm, b), i);
}

/// Only a read-only mount is passed over: every other candidate stays.
pub proof fn every_writable_route_stays(
    ms: Seq<MountView>,
    c: Seq<(u64, Seq<u8>, Seq<u8>)>,
    r: (u64, Seq<u8>, Seq<u8>),
)
    requires
        c.contains(r),
        first_with(ms, r.0) is None || !first_with(ms, r.0)->0.ro,
    ensures
        writable(ms, c).contains(r),
    decreases c.len(),
{
    let f = c.drop_last();
    let front = writable(ms, f);
    let all = writable(ms, c);
    let k = choose|k: int| 0 <= k < c.len() && c[k] == r;
    if k < c.len() - 1 {
        assert(f[k] == r);
        every_writable_route_stays(ms, f, r);
        let j = choose|j: int| 0 <= j < front.len() && front[j] == r;
        assert(all[j] == r);
    } else {
        assert(all[front.len() as int] == r);
    }
}

// ---------------------------------------------------------------------------
// Boxes and tombstones
// ---------------------------------------------------------------------------

/// How many names are tried for a box or a tombstone.
pub const TRIES: u64 = 1_000_000;

/// What came of an attempt to take a name.
#[derive(Clone, Copy, PartialEq, Eq, Debug, Structural)]
pub enum Attempt {
    Done,
    Exists,
    Failed,
}

/// What follows an attempt.
#[derive(Clone, Copy, PartialEq, Eq, Debug, Structural)]
pub enum Then {
    Again,
    Won,
    Lost,
    /// Every name that is tried was taken.
    Spent,
}

/// What follows an attempt when `made` were made before it.
pub open spec fn attempted(made: u64, a: Attempt) -> Then {
    match a {
        Attempt::Done => Then::Won,
        Attempt::Failed => Then::Lost,
        Attempt::Exists => if made + 1 < TRIES {
            Then::Again
        } else {
            Then::Spent
        },
    }
}

/// Decides what follows an attempt when `made` were made before it.
pub fn attempt(made: u64, a: Attempt) -> (t: Then)
    ensures
        t == attempted(made, a),
{
    match a {
        Attempt::Done => Then::Won,
        Attempt::Failed => Then::Lost,
        Attempt::Exists => {
            if made < TRIES - 1 {
                Then::Again
            } else {
                Then::Spent
            }
        },
    }
}

/// An attempt is made again only where the name is in use, and a million times at
/// most.
pub proof fn only_a_name_in_use_is_tried_again(made: u64, a: Attempt)
    ensures
        attempted(made, a) == Then::Again <==> a is Exists && made < 999_999,
        attempted(made, a) == Then::Spent <==> a is Exists && made >= 999_999,
        attempted(made, a) == Then::Won <==> a is Done,
        attempted(made, a) == Then::Lost <==> a is Failed,
{
}

/// `PREFIX.PID.N`.
pub open spec fn numbered(prefix: Seq<char>, pid: nat, n: nat) -> Seq<char> {
    prefix + seq!['.'] + decimal(pid) + seq!['.'] + decimal(n)
}

/// A numbered name is its prefix, the number of the process and the number of the try, with a dot
/// before each number.
pub proof fn a_try_is_numbered(prefix: Seq<char>, pid: nat, n: nat)
    ensures
        numbered(prefix, pid, n) == prefix + seq!['.'] + decimal(pid) + seq!['.'] + decimal(n),
{
}

/// The name of the `n`th box or tombstone of process `pid`.
pub fn numbered_name(prefix: &str, pid: u32, n: u64) -> (v: Vec<u8>)
    ensures
        v@ == encode_utf8(numbered(prefix@, pid as nat, n as nat)),
{
    let mut s = prefix.to_owned();
    s.push('.');
    s.append(number(pid as u64).as_str());
    s.push('.');
    s.append(number(n).as_str());
    assert(s@ =~= numbered(prefix@, pid as nat, n as nat));
    copy(s.as_str().as_bytes())
}

/// Two numbers give two names.
pub proof fn numbered_names_differ(prefix: Seq<char>, pid: nat, m: nat, n: nat)
    requires
        m != n,
    ensures
        encode_utf8(numbered(prefix, pid, m)) != encode_utf8(numbered(prefix, pid, n)),
{
    let a = numbered(prefix, pid, m);
    let b = numbered(prefix, pid, n);
    if encode_utf8(a) == encode_utf8(b) {
        encode_utf8_decode_utf8(a);
        encode_utf8_decode_utf8(b);
        assert(a == b);
        let head = prefix + seq!['.'] + decimal(pid) + seq!['.'];
        assert(a.skip(head.len() as int) =~= decimal(m));
        assert(b.skip(head.len() as int) =~= decimal(n));
        decimal_is_injective(m, n);
    }
}

/// `cp failed (STATUS): STDERR`, the standard error without white space around
/// it.
pub fn cp_failure(status: &str, stderr: &str) -> (s: String)
    ensures
        s@ == "cp failed ("@ + status@ + "): "@ + trimmed(stderr@),
{
    let mut s = String::from_str("cp failed (");
    s.append(status);
    s.append("): ");
    s.append(trim(stderr).as_str());
    s
}

} // verus!
