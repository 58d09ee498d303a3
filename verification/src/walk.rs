//! The walk over a tree before it is copied: its size, what is where in it, and
//! the first reason why it could not be removed whole.
use vstd::prelude::*;
use vstd::string::*;

use crate::bytes::{copy, views};
use crate::sys::{key_of, one_file, record_of, Content, FileKey, Ident, Manifest, Meta, Record};
use crate::text::{escape, escaped};
use crate::tree::{turn_of, turned, Frame, FrameView, Spot, Tree, Turn, TurnView};

verus! {

/// What a walk is for.
#[derive(Clone, Copy, PartialEq, Eq, Debug, Structural)]
pub enum Check {
    Size,
    Removable { uid: u32 },
}

/// What a walk found: the size of the tree, the first reason why it could not
/// be copied and removed whole, and what was where.
pub struct Walk {
    pub size: u64,
    pub problem: Option<String>,
    pub manifest: Manifest,
}

/// A reason why a tree cannot be copied and removed whole.
#[derive(Clone, Copy, PartialEq, Eq, Debug, Structural)]
pub enum Problem {
    /// The filesystem is read-only.
    ReadOnly,
    /// The parent directory cannot be written.
    Parent,
    /// The parent directory is immutable or append-only.
    ParentFrozen,
    /// It is somebody else's, in somebody else's sticky directory.
    Sticky,
    /// It is immutable or append-only.
    Immutable,
    /// It cannot be read.
    Unreadable,
    /// It is on another mount.
    OtherMount,
    /// It cannot be read, written and searched.
    Closed,
    /// It was replaced during the walk.
    Changed,
    /// The system reported an error.
    Io,
}

/// A problem in words, at `rel`; `io` is what the system said.
pub open spec fn problem_text(p: Problem, rel: Seq<u8>, io: Seq<char>) -> Seq<char> {
    match p {
        Problem::ReadOnly => "its filesystem is read-only"@,
        Problem::Parent => "its parent directory: "@ + io,
        Problem::ParentFrozen => "its parent directory is immutable"@,
        Problem::Sticky => escaped(rel) + " is in a sticky directory it does not own"@,
        Problem::Immutable => escaped(rel) + " is immutable"@,
        Problem::Unreadable => escaped(rel) + " is not readable"@,
        Problem::OtherMount => escaped(rel) + " is on another mount"@,
        Problem::Closed => escaped(rel) + " is not readable, writable and searchable"@,
        Problem::Changed => escaped(rel) + " changed during the walk"@,
        Problem::Io => escaped(rel) + ": "@ + io,
    }
}

/// A problem of a walk is told in words of its own, by the entry that has it and what the system
/// said.
pub proof fn a_problem_is_explained(p: Problem, rel: Seq<u8>, io: Seq<char>)
    ensures
        p is ReadOnly ==> problem_text(p, rel, io) == "its filesystem is read-only"@,
        p is Parent ==> problem_text(p, rel, io) == "its parent directory: "@ + io,
        p is ParentFrozen ==> problem_text(p, rel, io) == "its parent directory is immutable"@,
        p is Sticky ==> problem_text(p, rel, io) == escaped(rel)
            + " is in a sticky directory it does not own"@,
        p is Immutable ==> problem_text(p, rel, io) == escaped(rel) + " is immutable"@,
        p is Unreadable ==> problem_text(p, rel, io) == escaped(rel) + " is not readable"@,
        p is OtherMount ==> problem_text(p, rel, io) == escaped(rel) + " is on another mount"@,
        p is Closed ==> problem_text(p, rel, io) == escaped(rel)
            + " is not readable, writable and searchable"@,
        p is Changed ==> problem_text(p, rel, io) == escaped(rel) + " changed during the walk"@,
        p is Io ==> problem_text(p, rel, io) == escaped(rel) + ": "@ + io,
{
}

/// Puts a problem in words.
pub fn describe(p: Problem, rel: &[u8], io: &str) -> (s: String)
    ensures
        s@ == problem_text(p, rel@, io@),
{
    let mut s = String::new();
    match p {
        Problem::ReadOnly => s.append("its filesystem is read-only"),
        Problem::Parent => {
            s.append("its parent directory: ");
            s.append(io);
        },
        Problem::ParentFrozen => s.append("its parent directory is immutable"),
        Problem::Sticky => {
            s = escape(rel);
            s.append(" is in a sticky directory it does not own");
        },
        Problem::Immutable => {
            s = escape(rel);
            s.append(" is immutable");
        },
        Problem::Unreadable => {
            s = escape(rel);
            s.append(" is not readable");
        },
        Problem::OtherMount => {
            s = escape(rel);
            s.append(" is on another mount");
        },
        Problem::Closed => {
            s = escape(rel);
            s.append(" is not readable, writable and searchable");
        },
        Problem::Changed => {
            s = escape(rel);
            s.append(" changed during the walk");
        },
        Problem::Io => {
            s = escape(rel);
            s.append(": ");
            s.append(io);
        },
    }
    s
}

/// A problem as contents.
pub open spec fn text_view(s: Option<String>) -> Option<Seq<char>> {
    match s {
        Some(t) => Some(t@),
        None => None,
    }
}

/// The size of a tree after one more file: a file seen before adds nothing.
pub open spec fn grown(size: int, links: Map<FileKey, Content>, m: Meta) -> int {
    if links.contains_key(key_of(m)) {
        size
    } else {
        size + m.size
    }
}

/// The files seen after one more.
pub open spec fn linked(links: Map<FileKey, Content>, m: Meta) -> Map<FileKey, Content> {
    links.insert(key_of(m), Content { size: m.size, mtime: m.mtime })
}

/// A hard-linked file counts once: its second name adds nothing to the size.
pub proof fn second_link_adds_nothing(
    size: int,
    links: Map<FileKey, Content>,
    first: Meta,
    second: Meta,
)
    requires
        one_file(first.id, second.id),
    ensures
        grown(grown(size, links, first), linked(links, first), second) == grown(size, links, first),
{
}

/// Files with one inode number on two devices are two files: each counts, and
/// neither takes the other's place.
pub proof fn devices_keep_files_apart(
    size: int,
    links: Map<FileKey, Content>,
    first: Meta,
    second: Meta,
)
    requires
        first.id.dev != second.id.dev,
        !links.contains_key(key_of(first)),
        !links.contains_key(key_of(second)),
    ensures
        grown(grown(size, links, first), linked(links, first), second) == size + first.size
            + second.size,
        linked(linked(links, first), second)[key_of(first)] == (Content {
            size: first.size,
            mtime: first.mtime,
        }),
{
}

/// Counts a file that is not a directory. The size must fit where the file is
/// new; one seen before adds nothing.
pub fn count_leaf(m: &Meta, w: &mut Walk)
    requires
        old(w).manifest.wf(),
        grown(old(w).size as int, old(w).manifest.links(), *m) <= u64::MAX,
    ensures
        final(w).manifest.wf(),
        final(w).size == grown(old(w).size as int, old(w).manifest.links(), *m),
        final(w).manifest.links() == linked(old(w).manifest.links(), *m),
        final(w).manifest.entries() == old(w).manifest.entries(),
        final(w).problem == old(w).problem,
{
    if w.manifest.link(m) {
        w.size = w.size + m.size;
    }
}

impl Walk {
    /// Nothing walked yet.
    pub fn new() -> (w: Walk)
        ensures
            w.size == 0,
            w.problem is None,
            w.manifest.wf(),
            w.manifest.links() == Map::<FileKey, Content>::empty(),
            w.manifest.entries() == Map::<Seq<u8>, Record>::empty(),
    {
        Walk { size: 0, problem: None, manifest: Manifest::new() }
    }

    /// Keeps the first problem.
    pub fn note(&mut self, p: Option<Problem>, rel: &[u8], io: &str)
        ensures
            text_view(final(self).problem) == (match (old(self).problem, p) {
                (None, Some(q)) => Some(problem_text(q, rel@, io@)),
                _ => text_view(old(self).problem),
            }),
            final(self).size == old(self).size,
            final(self).manifest == old(self).manifest,
    {
        if self.problem.is_none() {
            if let Some(q) = p {
                self.problem = Some(describe(q, rel, io));
            }
        }
    }

    /// Takes a file in: its size, and that it was at `path`.
    pub fn leaf(&mut self, path: Vec<u8>, m: &Meta)
        requires
            old(self).manifest.wf(),
            grown(old(self).size as int, old(self).manifest.links(), *m) <= u64::MAX,
        ensures
            final(self).manifest.wf(),
            final(self).size == grown(old(self).size as int, old(self).manifest.links(), *m),
            final(self).manifest.links() == linked(old(self).manifest.links(), *m),
            final(self).manifest.entries() == old(self).manifest.entries().insert(
                path@,
                record_of(*m),
            ),
            final(self).problem == old(self).problem,
    {
        count_leaf(m, self);
        self.manifest.record(path, m);
    }

    /// Takes a directory in: that it was at `path`.
    pub fn dir(&mut self, path: Vec<u8>, m: &Meta)
        requires
            old(self).manifest.wf(),
        ensures
            final(self).manifest.wf(),
            final(self).size == old(self).size,
            final(self).manifest.links() == old(self).manifest.links(),
            final(self).manifest.entries() == old(self).manifest.entries().insert(
                path@,
                record_of(*m),
            ),
            final(self).problem == old(self).problem,
    {
        self.manifest.record(path, m);
    }
}

/// Whether the parent directory can be written and searched.
#[derive(Clone, Copy, PartialEq, Eq, Debug, Structural)]
pub enum Access {
    Allowed,
    ReadOnly,
    Denied,
}

/// What stands against removing the top of a tree: the parent must be writable
/// and not frozen; in a sticky parent either the parent or the file must be
/// ours; the file must not be frozen, and a plain file must be readable, or it
/// could not be copied.
pub open spec fn top_problem(
    access: Access,
    parent: Option<Meta>,
    top: Meta,
    readable: bool,
    uid: u32,
) -> Option<Problem> {
    if access == Access::ReadOnly {
        Some(Problem::ReadOnly)
    } else if access == Access::Denied {
        Some(Problem::Parent)
    } else if parent matches Some(p) && p.frozen() {
        Some(Problem::ParentFrozen)
    } else if parent matches Some(p) && p.stuck() && p.uid != uid && top.uid != uid {
        Some(Problem::Sticky)
    } else if top.frozen() {
        Some(Problem::Immutable)
    } else if top.reg() && !readable {
        Some(Problem::Unreadable)
    } else {
        None
    }
}

/// Looks for what stands against removing the top of a tree.
pub fn removable_top_checks(
    access: Access,
    parent: Option<Meta>,
    top: &Meta,
    readable: bool,
    uid: u32,
) -> (r: Option<Problem>)
    ensures
        r == top_problem(access, parent, *top, readable, uid),
{
    match access {
        Access::ReadOnly => return Some(Problem::ReadOnly),
        Access::Denied => return Some(Problem::Parent),
        Access::Allowed => {},
    }
    if let Some(p) = parent {
        if p.attrs.immutable || p.attrs.append {
            return Some(Problem::ParentFrozen);
        }
        if p.sticky() && p.uid != uid && top.uid != uid {
            return Some(Problem::Sticky);
        }
    }
    if top.attrs.immutable || top.attrs.append {
        return Some(Problem::Immutable);
    }
    if top.is_reg() && !readable {
        return Some(Problem::Unreadable);
    }
    None
}

/// A tree's top can be removed just where its parent can be written and is not
/// frozen, where in a sticky parent one of the two is ours, where the top itself
/// is not frozen, and where a plain file can be read.
pub proof fn what_stands_against_the_top(
    access: Access,
    parent: Option<Meta>,
    top: Meta,
    readable: bool,
    uid: u32,
)
    ensures
        top_problem(access, parent, top, readable, uid) is None <==> {
            &&& access is Allowed
            &&& parent is Some ==> !(parent->0).attrs.immutable && !(parent->0).attrs.append
            &&& parent is Some && (parent->0).mode & 0o1000 != 0 ==> (parent->0).uid == uid
                || top.uid == uid
            &&& !top.attrs.immutable && !top.attrs.append
            &&& top.mode & 0o170000 == 0o100000 ==> readable
        },
        access is ReadOnly ==> top_problem(access, parent, top, readable, uid) == Some(
            Problem::ReadOnly,
        ),
        access is Denied ==> top_problem(access, parent, top, readable, uid) == Some(
            Problem::Parent,
        ),
{
}

/// What a walk knows throughout: the mount of the top, and for whom the tree
/// is to be removable, if it is.
#[derive(Clone, Copy, PartialEq, Eq, Debug, Structural)]
pub struct WalkCtx {
    pub own_mnt: u64,
    pub uid: Option<u32>,
}

/// Where a walk stands with one entry.
#[derive(Clone, Copy, PartialEq, Eq, Debug, Structural)]
pub enum Visit {
    /// To be looked at.
    Stat,
    /// A directory to be opened.
    Open(Meta),
    /// An open directory to be listed.
    List(Meta),
    /// Not a directory: counted.
    Leaf(Meta),
    /// A directory that is not entered, or anything on another mount: recorded,
    /// not counted.
    Barred(Meta),
    /// A directory whose names are known: to be gone through.
    Down(Meta),
    /// Nothing there, or nothing to be learned.
    Skip,
}

/// What the system said of an entry.
#[derive(Clone, Copy, PartialEq, Eq, Debug, Structural)]
pub enum Sight {
    Missing,
    StatFailed,
    Seen { meta: Meta, readable: bool },
    OpenFailed,
    /// Opened; `id` is what the open directory is, if that could be learned.
    Opened { id: Option<Ident>, usable: bool },
    Listed,
    ListFailed,
}

/// What stands against removing an entry within the tree.
pub open spec fn child_problem(ctx: WalkCtx, spot: Spot, m: Meta, readable: bool) -> Option<Problem> {
    match ctx.uid {
        None => None,
        Some(uid) => if m.frozen() {
            Some(Problem::Immutable)
        } else if spot.sticky && spot.owner != uid && m.uid != uid {
            Some(Problem::Sticky)
        } else if m.reg() && !readable {
            Some(Problem::Unreadable)
        } else {
            None
        },
    }
}

/// A problem that only matters where the tree is to be removed.
pub open spec fn if_removing(ctx: WalkCtx, p: Problem) -> Option<Problem> {
    if ctx.uid is Some {
        Some(p)
    } else {
        None
    }
}

/// One step of a walk with one entry.
pub open spec fn visited(ctx: WalkCtx, spot: Spot, at: Visit, saw: Sight) -> (
    Visit,
    Option<Problem>,
) {
    match (at, saw) {
        (Visit::Stat, Sight::Missing) => (Visit::Skip, None),
        (Visit::Stat, Sight::StatFailed) => (Visit::Skip, if_removing(ctx, Problem::Io)),
        (Visit::Stat, Sight::Seen { meta, readable }) => {
            let p = child_problem(ctx, spot, meta, readable);
            if meta.id.mnt != ctx.own_mnt {
                (
                    Visit::Barred(meta),
                    if p is Some {
                        p
                    } else {
                        if_removing(ctx, Problem::OtherMount)
                    },
                )
            } else if !meta.dir() {
                (Visit::Leaf(meta), p)
            } else {
                (Visit::Open(meta), p)
            }
        },
        (Visit::Open(m), Sight::OpenFailed) => (Visit::Barred(m), if_removing(ctx, Problem::Io)),
        (Visit::Open(m), Sight::Opened { id, usable }) => if id matches Some(i) && one_file(i, m.id)
            && i.mnt == ctx.own_mnt {
            (
                Visit::List(m),
                if usable {
                    None
                } else {
                    if_removing(ctx, Problem::Closed)
                },
            )
        } else {
            (Visit::Barred(m), if_removing(ctx, Problem::Changed))
        },
        (Visit::List(m), Sight::Listed) => (Visit::Down(m), None),
        (Visit::List(m), Sight::ListFailed) => (Visit::Barred(m), if_removing(ctx, Problem::Io)),
        _ => (at, None),
    }
}

/// Goes one step with one entry of a walk.
pub fn walk_step(ctx: WalkCtx, spot: Spot, at: Visit, saw: Sight) -> (r: (Visit, Option<Problem>))
    ensures
        r == visited(ctx, spot, at, saw),
{
    let io: Option<Problem> = if ctx.uid.is_some() {
        Some(Problem::Io)
    } else {
        None
    };
    match (at, saw) {
        (Visit::Stat, Sight::Missing) => (Visit::Skip, None),
        (Visit::Stat, Sight::StatFailed) => (Visit::Skip, io),
        (Visit::Stat, Sight::Seen { meta, readable }) => {
            let mut p: Option<Problem> = None;
            if let Some(uid) = ctx.uid {
                if meta.attrs.immutable || meta.attrs.append {
                    p = Some(Problem::Immutable);
                } else if spot.sticky && spot.owner != uid && meta.uid != uid {
                    p = Some(Problem::Sticky);
                } else if meta.is_reg() && !readable {
                    p = Some(Problem::Unreadable);
                }
            }
            if meta.id.mnt != ctx.own_mnt {
                if p.is_none() && ctx.uid.is_some() {
                    p = Some(Problem::OtherMount);
                }
                (Visit::Barred(meta), p)
            } else if !meta.is_dir() {
                (Visit::Leaf(meta), p)
            } else {
                (Visit::Open(meta), p)
            }
        },
        (Visit::Open(m), Sight::OpenFailed) => (Visit::Barred(m), io),
        (Visit::Open(m), Sight::Opened { id, usable }) => {
            let right = match id {
                Some(i) => i.same_file(&m.id) && i.mnt == ctx.own_mnt,
                None => false,
            };
            if right {
                if !usable && ctx.uid.is_some() {
                    (Visit::List(m), Some(Problem::Closed))
                } else {
                    (Visit::List(m), None)
                }
            } else if ctx.uid.is_some() {
                (Visit::Barred(m), Some(Problem::Changed))
            } else {
                (Visit::Barred(m), None)
            }
        },
        (Visit::List(m), Sight::Listed) => (Visit::Down(m), None),
        (Visit::List(m), Sight::ListFailed) => (Visit::Barred(m), io),
        _ => (at, None),
    }
}

/// A walk that only measures finds no problems.
pub proof fn measuring_finds_no_problem(ctx: WalkCtx, spot: Spot, at: Visit, saw: Sight)
    requires
        ctx.uid is None,
    ensures
        visited(ctx, spot, at, saw).1 is None,
{
}

/// What a walk does with an entry that it has looked at: anything on another
/// mount is recorded and not entered, a file is counted, a directory opened, and
/// listed if it is the one that was seen. What is missing, or cannot be looked at,
/// is passed over; what cannot be opened or listed is recorded.
pub proof fn a_walk_takes_in_what_it_sees(
    ctx: WalkCtx,
    spot: Spot,
    m: Meta,
    readable: bool,
    i: Ident,
    usable: bool,
)
    ensures
        ({
            let seen = visited(ctx, spot, Visit::Stat, Sight::Seen { meta: m, readable }).0;
            if m.id.mnt != ctx.own_mnt {
                seen == Visit::Barred(m)
            } else if m.mode & 0o170000 == 0o040000 {
                seen == Visit::Open(m)
            } else {
                seen == Visit::Leaf(m)
            }
        }),
        visited(ctx, spot, Visit::Stat, Sight::Missing) == (Visit::Skip, None::<Problem>),
        visited(ctx, spot, Visit::Stat, Sight::StatFailed).0 == Visit::Skip,
        visited(ctx, spot, Visit::Open(m), Sight::OpenFailed).0 == Visit::Barred(m),
        visited(ctx, spot, Visit::Open(m), Sight::Opened { id: None, usable }).0 == Visit::Barred(
            m,
        ),
        visited(ctx, spot, Visit::Open(m), Sight::Opened { id: Some(i), usable }).0 == (if i.dev
            == m.id.dev && i.ino == m.id.ino && i.mnt == ctx.own_mnt {
            Visit::List(m)
        } else {
            Visit::Barred(m)
        }),
        visited(ctx, spot, Visit::List(m), Sight::Listed) == (Visit::Down(m), None::<Problem>),
        visited(ctx, spot, Visit::List(m), Sight::ListFailed).0 == Visit::Barred(m),
{
}

/// Where a tree is to be removed, an entry is no problem just where it is on the
/// mount of the top and not frozen, where in a sticky directory it or the
/// directory is ours, and where a plain file can be read. A directory must be
/// what was seen and open to us, and no step may fail.
pub proof fn what_stands_against_an_entry(
    ctx: WalkCtx,
    spot: Spot,
    m: Meta,
    readable: bool,
    i: Ident,
    usable: bool,
    uid: u32,
)
    requires
        ctx.uid == Some(uid),
    ensures
        visited(ctx, spot, Visit::Stat, Sight::Seen { meta: m, readable }).1 is None <==> {
            &&& m.id.mnt == ctx.own_mnt
            &&& !m.attrs.immutable && !m.attrs.append
            &&& spot.sticky ==> spot.owner == uid || m.uid == uid
            &&& m.mode & 0o170000 == 0o100000 ==> readable
        },
        visited(ctx, spot, Visit::Stat, Sight::StatFailed).1 == Some(Problem::Io),
        visited(ctx, spot, Visit::Open(m), Sight::OpenFailed).1 == Some(Problem::Io),
        visited(ctx, spot, Visit::List(m), Sight::ListFailed).1 == Some(Problem::Io),
        visited(ctx, spot, Visit::Open(m), Sight::Opened { id: Some(i), usable }).1 == (if !(i.dev
            == m.id.dev && i.ino == m.id.ino && i.mnt == ctx.own_mnt) {
            Some(Problem::Changed)
        } else if usable {
            None
        } else {
            Some(Problem::Closed)
        }),
        visited(ctx, spot, Visit::Open(m), Sight::Opened { id: None, usable }).1 == Some(
            Problem::Changed,
        ),
{
}

// ---------------------------------------------------------------------------
// The whole walk
// ---------------------------------------------------------------------------

/// Where a walk stands.
#[derive(Clone, Copy, PartialEq, Eq, Debug, Structural)]
pub enum Stage {
    /// With the entry at hand.
    Entry(Visit),
    /// The innermost directory is done with and to be closed.
    Leaving,
    Done,
}

/// A walk under way: what it found, the directories it is in, and the entry at
/// hand.
pub struct WalkRun {
    pub ctx: WalkCtx,
    pub walk: Walk,
    pub tree: Tree,
    pub stage: Stage,
    /// The name of the entry at hand in the innermost directory.
    pub name: Vec<u8>,
    /// Its path relative to the top of the tree.
    pub key: Vec<u8>,
    /// Its path as shown.
    pub rel: Vec<u8>,
    pub spot: Spot,
}

/// What a `WalkRun` holds.
#[verifier::ext_equal]
pub struct WalkRunView {
    pub ctx: WalkCtx,
    pub size: int,
    pub problem: Option<Seq<char>>,
    pub links: Map<FileKey, Content>,
    pub entries: Map<Seq<u8>, Record>,
    pub frames: Seq<FrameView>,
    pub stage: Stage,
    pub name: Seq<u8>,
    pub key: Seq<u8>,
    pub rel: Seq<u8>,
    pub spot: Spot,
}

impl View for WalkRun {
    type V = WalkRunView;

    open spec fn view(&self) -> WalkRunView {
        WalkRunView {
            ctx: self.ctx,
            size: self.walk.size as int,
            problem: text_view(self.walk.problem),
            links: self.walk.manifest.links(),
            entries: self.walk.manifest.entries(),
            frames: self.tree@,
            stage: self.stage,
            name: self.name@,
            key: self.key@,
            rel: self.rel@,
            spot: self.spot,
        }
    }
}

/// A problem noted, unless there was one already.
pub open spec fn noted(v: WalkRunView, p: Option<Problem>, io: Seq<char>) -> WalkRunView {
    match (v.problem, p) {
        (None, Some(q)) => WalkRunView { problem: Some(problem_text(q, v.rel, io)), ..v },
        _ => v,
    }
}

/// The entry at hand counted as a file.
pub open spec fn with_leaf(v: WalkRunView, m: Meta) -> WalkRunView {
    WalkRunView {
        size: grown(v.size, v.links, m),
        links: linked(v.links, m),
        entries: v.entries.insert(v.key, record_of(m)),
        ..v
    }
}

/// The entry at hand recorded, not counted.
pub open spec fn with_dir(v: WalkRunView, m: Meta) -> WalkRunView {
    WalkRunView { entries: v.entries.insert(v.key, record_of(m)), ..v }
}

/// The directory at hand gone into.
pub open spec fn gone_into(v: WalkRunView, m: Meta, names: Seq<Seq<u8>>) -> WalkRunView {
    WalkRunView {
        frames: v.frames.push(
            FrameView {
                name: v.name,
                key: v.key,
                rel: v.rel,
                spot: Spot { sticky: m.stuck(), owner: m.uid },
                todo: names,
            },
        ),
        ..v
    }
}

/// On to the next entry.
pub open spec fn moved_on(v: WalkRunView) -> WalkRunView {
    match turn_of(v.frames) {
        TurnView::Visit { name, key, rel, spot } => WalkRunView {
            frames: turned(v.frames),
            stage: Stage::Entry(Visit::Stat),
            name,
            key,
            rel,
            spot,
            ..v
        },
        TurnView::Leave { name, rel } => WalkRunView {
            frames: turned(v.frames),
            stage: Stage::Leaving,
            ..v
        },
        TurnView::Done => WalkRunView { frames: turned(v.frames), stage: Stage::Done, ..v },
    }
}

/// What a report adds to the size: the size of a file that is no directory, is
/// on the mount of the top, and was not seen before.
pub open spec fn adds(v: WalkRunView, saw: Sight) -> int {
    if v.stage == Stage::Entry(Visit::Stat) && saw is Seen && saw->meta.id.mnt == v.ctx.own_mnt
        && !saw->meta.dir() && !v.links.contains_key(key_of(saw->meta)) {
        saw->meta.size as int
    } else {
        0
    }
}

/// A walk after one more report of the system.
pub open spec fn walk_fed(
    v: WalkRunView,
    saw: Sight,
    io: Seq<char>,
    names: Seq<Seq<u8>>,
) -> WalkRunView {
    match v.stage {
        Stage::Entry(at) => {
            let (next, p) = visited(v.ctx, v.spot, at, saw);
            let w = noted(v, p, io);
            match next {
                Visit::Leaf(m) => moved_on(with_leaf(w, m)),
                Visit::Barred(m) => moved_on(with_dir(w, m)),
                Visit::Down(m) => moved_on(gone_into(with_dir(w, m), m, names)),
                Visit::Skip => moved_on(w),
                _ => WalkRunView { stage: Stage::Entry(next), ..w },
            }
        },
        _ => v,
    }
}

/// A walk before its top is entered or counted: the checks on the top are made.
pub open spec fn walk_ready(
    check: Check,
    name: Seq<u8>,
    top: Meta,
    access: Access,
    parent: Option<Meta>,
    readable: bool,
    io: Seq<char>,
) -> WalkRunView {
    let v = WalkRunView {
        ctx: WalkCtx {
            own_mnt: top.id.mnt,
            uid: match check {
                Check::Removable { uid } => Some(uid),
                Check::Size => None,
            },
        },
        size: 0,
        problem: None,
        links: Map::empty(),
        entries: Map::empty(),
        frames: Seq::empty(),
        stage: Stage::Entry(Visit::Open(top)),
        name,
        key: Seq::empty(),
        rel: name,
        spot: Spot { sticky: false, owner: 0 },
    };
    match check {
        Check::Removable { uid } => noted(v, top_problem(access, parent, top, readable, uid), io),
        Check::Size => v,
    }
}

/// A walk at its start: a directory is to be opened, a file is counted at once.
pub open spec fn walk_begun(
    check: Check,
    name: Seq<u8>,
    top: Meta,
    access: Access,
    parent: Option<Meta>,
    readable: bool,
    io: Seq<char>,
) -> WalkRunView {
    let v = walk_ready(check, name, top, access, parent, readable, io);
    if top.dir() {
        v
    } else {
        moved_on(with_leaf(v, top))
    }
}

/// A report of the system: what it said, the text of its error, and the names in
/// a directory that was listed. `None`: a directory was left.
pub struct Word {
    pub saw: Option<Sight>,
    pub io: Seq<char>,
    pub names: Seq<Seq<u8>>,
}

/// A walk after a course of reports.
pub open spec fn walk_run(begun: WalkRunView, words: Seq<Word>) -> WalkRunView
    decreases words.len(),
{
    if words.len() == 0 {
        begun
    } else {
        let v = walk_run(begun, words.drop_last());
        let w = words.last();
        match w.saw {
            Some(saw) => walk_fed(v, saw, w.io, w.names),
            None => if v.stage == Stage::Leaving {
                moved_on(v)
            } else {
                v
            },
        }
    }
}

/// What a walk makes of a report on the entry at hand: a file is counted, unless
/// it was seen before, and recorded at its path; a directory is recorded and gone
/// through name by name; anything barred is recorded. The first problem is kept.
/// After each the next turn comes.
pub proof fn a_walk_takes_its_turns(
    v: WalkRunView,
    at: Visit,
    saw: Sight,
    io: Seq<char>,
    names: Seq<Seq<u8>>,
)
    requires
        v.stage == Stage::Entry(at),
    ensures
        ({
            let n = walk_fed(v, saw, io, names);
            let (next, p) = visited(v.ctx, v.spot, at, saw);
            let m = match next {
                Visit::Leaf(m) => m,
                Visit::Barred(m) => m,
                Visit::Down(m) => m,
                _ => arbitrary(),
            };
            let key = FileKey { dev: m.id.dev, ino: m.id.ino };
            let content = Content { size: m.size, mtime: m.mtime };
            let taken = next is Leaf || next is Barred || next is Down;
            let frames = if next is Down {
                v.frames.push(
                    FrameView {
                        name: v.name,
                        key: v.key,
                        rel: v.rel,
                        spot: Spot { sticky: m.mode & 0o1000 != 0, owner: m.uid },
                        todo: names,
                    },
                )
            } else {
                v.frames
            };
            &&& n.ctx == v.ctx
            &&& n.size == v.size + (if next is Leaf && !v.links.contains_key(key) {
                m.size as int
            } else {
                0
            })
            &&& n.links == (if next is Leaf {
                v.links.insert(key, content)
            } else {
                v.links
            })
            &&& n.entries == (if taken {
                v.entries.insert(
                    v.key,
                    Record { file: key, kind: m.mode & 0o170000, content, live: true },
                )
            } else {
                v.entries
            })
            &&& n.problem == (if v.problem is None && p is Some {
                Some(problem_text(p->0, v.rel, io))
            } else {
                v.problem
            })
            &&& taken || next is Skip ==> n.frames == turned(frames) && (match turn_of(frames) {
                TurnView::Visit { name, key, rel, spot } => n.stage == Stage::Entry(Visit::Stat)
                    && n.name == name && n.key == key && n.rel == rel && n.spot == spot,
                TurnView::Leave { name, rel } => n.stage == Stage::Leaving,
                TurnView::Done => n.stage == Stage::Done,
            })
            &&& !taken && !(next is Skip) ==> n.stage == Stage::Entry(next) && n.frames == v.frames
                && n.name == v.name && n.key == v.key && n.rel == v.rel && n.spot == v.spot
        }),
{
}

/// A walk begins with its top, on whose mount it stays: a directory is opened,
/// and anything else is counted and recorded at once, which ends the walk. Whether
/// the top can be removed is looked at first, where that is asked for.
pub proof fn a_walk_begins_with_its_top(
    check: Check,
    name: Seq<u8>,
    top: Meta,
    access: Access,
    parent: Option<Meta>,
    readable: bool,
    io: Seq<char>,
)
    ensures
        ({
            let v = walk_begun(check, name, top, access, parent, readable, io);
            let key = FileKey { dev: top.id.dev, ino: top.id.ino };
            let content = Content { size: top.size, mtime: top.mtime };
            &&& v.ctx.own_mnt == top.id.mnt
            &&& v.ctx.uid == (match check {
                Check::Removable { uid } => Some(uid),
                Check::Size => None,
            })
            &&& v.problem == (match check {
                Check::Removable { uid } => match top_problem(access, parent, top, readable, uid) {
                    Some(p) => Some(problem_text(p, name, io)),
                    None => None,
                },
                Check::Size => None,
            })
            &&& v.frames.len() == 0
            &&& top.mode & 0o170000 == 0o040000 ==> v.stage == Stage::Entry(Visit::Open(top))
                && v.size == 0 && v.rel == name && v.key.len() == 0 && v.entries == Map::<
                Seq<u8>,
                Record,
            >::empty() && v.links == Map::<FileKey, Content>::empty()
            &&& top.mode & 0o170000 != 0o040000 ==> v.stage == Stage::Done && v.size == top.size
                && v.links == Map::<FileKey, Content>::empty().insert(key, content) && v.entries
                == Map::<Seq<u8>, Record>::empty().insert(
                Seq::<u8>::empty(),
                Record { file: key, kind: top.mode & 0o170000, content, live: true },
            )
        }),
{
}

/// A directory was opened, and is the one that was seen, on the mount of the top.
pub open spec fn opened_as(w: Word, mnt: u64, m: Meta) -> bool {
    w.saw matches Some(Sight::Opened { id, usable }) && id matches Some(i) && one_file(i, m.id)
        && i.mnt == mnt
}

/// Whatever the system reports, a walk opens only directories on the mount of
/// its top, and lists one only if what was opened is the directory that was
/// seen.
pub proof fn walk_never_leaves_its_mount(
    check: Check,
    name: Seq<u8>,
    top: Meta,
    access: Access,
    parent: Option<Meta>,
    readable: bool,
    io: Seq<char>,
    words: Seq<Word>,
)
    ensures
        ({
            let v = walk_run(walk_begun(check, name, top, access, parent, readable, io), words);
            &&& v.ctx.own_mnt == top.id.mnt
            &&& match v.stage {
                Stage::Entry(Visit::Open(m)) => m.dir() && m.id.mnt == top.id.mnt,
                Stage::Entry(Visit::List(m)) => m.dir() && m.id.mnt == top.id.mnt && (exists|
                    i: int,
                |
                    0 <= i < words.len() && opened_as(#[trigger] words[i], top.id.mnt, m)),
                Stage::Entry(at) => at is Stat,
                _ => true,
            }
        }),
    decreases words.len(),
{
    if words.len() > 0 {
        let front = words.drop_last();
        walk_never_leaves_its_mount(check, name, top, access, parent, readable, io, front);
        assert(words[words.len() - 1] == words.last());
        let v = walk_run(walk_begun(check, name, top, access, parent, readable, io), front);
        if let Stage::Entry(Visit::List(m)) = v.stage {
            let i = choose|i: int|
                0 <= i < front.len() && opened_as(#[trigger] front[i], top.id.mnt, m);
            assert(words[i] == front[i]);
        }
    }
}

/// What a tree's size is made of: at the start the size of the top, if that is no
/// directory; then each report adds the size of a file just where it is no
/// directory, is on the mount of the top and was not seen before. Directories,
/// further links and other mounts add nothing.
pub proof fn only_new_files_of_the_mount_count(
    check: Check,
    name: Seq<u8>,
    top: Meta,
    access: Access,
    parent: Option<Meta>,
    readable: bool,
    io: Seq<char>,
    words: Seq<Word>,
)
    ensures
        ({
            let begun = walk_begun(check, name, top, access, parent, readable, io);
            let v = walk_run(begun, words);
            if words.len() == 0 {
                v.size == (if top.dir() {
                    0
                } else {
                    top.size as int
                })
            } else {
                let before = walk_run(begun, words.drop_last());
                v.size == before.size + (match words.last().saw {
                    Some(saw) => adds(before, saw),
                    None => 0,
                })
            }
        }),
{
    if words.len() > 0 {
        walk_never_leaves_its_mount(
            check,
            name,
            top,
            access,
            parent,
            readable,
            io,
            words.drop_last(),
        );
    }
}

/// The files that a walk counts: those it saw that are no directories and on the
/// mount of the top, each file once, at its first name.
pub open spec fn files_counted(begun: WalkRunView, top: Meta, words: Seq<Word>) -> Seq<Meta>
    decreases words.len(),
{
    if words.len() == 0 {
        if top.dir() {
            Seq::empty()
        } else {
            seq![top]
        }
    } else {
        let front = files_counted(begun, top, words.drop_last());
        let at_hand = walk_run(begun, words.drop_last()).stage;
        match words.last().saw {
            Some(Sight::Seen { meta, readable }) => if at_hand == Stage::Entry(Visit::Stat)
                && !meta.dir() && meta.id.mnt == top.id.mnt && !holds_file(front, meta) {
                front.push(meta)
            } else {
                front
            },
            _ => front,
        }
    }
}

/// The same file is among these.
pub open spec fn holds_file(files: Seq<Meta>, m: Meta) -> bool {
    exists|i: int| 0 <= i < files.len() && one_file((#[trigger] files[i]).id, m.id)
}

/// The sum of the sizes of files.
pub open spec fn sum_of(files: Seq<Meta>) -> int
    decreases files.len(),
{
    if files.len() == 0 {
        0
    } else {
        sum_of(files.drop_last()) + files.last().size
    }
}

/// The size of a tree is the sum of the sizes of its files: of all that were
/// seen and are no directories, on the mount of the top, no file counted twice.
pub proof fn a_size_is_a_sum_over_files(
    check: Check,
    name: Seq<u8>,
    top: Meta,
    access: Access,
    parent: Option<Meta>,
    readable: bool,
    io: Seq<char>,
    words: Seq<Word>,
)
    ensures
        ({
            let begun = walk_begun(check, name, top, access, parent, readable, io);
            let v = walk_run(begun, words);
            let files = files_counted(begun, top, words);
            &&& v.size == sum_of(files)
            &&& forall|i: int|
                0 <= i < files.len() ==> !(#[trigger] files[i]).dir() && files[i].id.mnt
                    == top.id.mnt
            &&& forall|i: int, j: int|
                #![trigger files[i], files[j]]
                0 <= i < j < files.len() ==> !one_file(files[i].id, files[j].id)
            &&& forall|m: Meta| #[trigger] v.links.contains_key(key_of(m)) <==> holds_file(files, m)
        }),
    decreases words.len(),
{
    let begun = walk_begun(check, name, top, access, parent, readable, io);
    if words.len() == 0 {
        if !top.dir() {
            let one = seq![top];
            assert(one.drop_last() =~= Seq::<Meta>::empty());
            assert(sum_of(one) == top.size) by {
                reveal_with_fuel(sum_of, 2);
            }
            assert forall|m: Meta| #[trigger] begun.links.contains_key(key_of(m)) <==> holds_file(
                one,
                m,
            ) by {
                assert(one[0] == top);
            }
        }
    } else {
        let before = words.drop_last();
        let v = walk_run(begun, before);
        let front = files_counted(begun, top, before);
        a_size_is_a_sum_over_files(check, name, top, access, parent, readable, io, before);
        walk_never_leaves_its_mount(check, name, top, access, parent, readable, io, before);
        only_new_files_of_the_mount_count(
            check,
            name,
            top,
            access,
            parent,
            readable,
            io,
            words,
        );
        links_grow(v, words.last());
        if let Some(Sight::Seen { meta, readable: r }) = words.last().saw {
            let all = front.push(meta);
            assert(all.drop_last() =~= front);
            assert(v.links.contains_key(key_of(meta)) <==> holds_file(front, meta));
            assert forall|m: Meta| #[trigger] holds_file(all, m) <==> holds_file(front, m)
                || one_file(meta.id, m.id) by {
                if holds_file(front, m) {
                    let i = choose|i: int|
                        0 <= i < front.len() && one_file((#[trigger] front[i]).id, m.id);
                    assert(all[i] == front[i]);
                }
                assert(all[front.len() as int] == meta);
                if holds_file(all, m) && !one_file(meta.id, m.id) {
                    let i = choose|i: int|
                        0 <= i < all.len() && one_file((#[trigger] all[i]).id, m.id);
                    assert(front[i] == all[i]);
                }
            }
        }
    }
}

/// After a report, the files seen are those before it, and the one that it
/// counts.
proof fn links_grow(v: WalkRunView, w: Word)
    requires
        v.stage matches Stage::Entry(at) ==> at is Stat || at is Open || at is List,
    ensures
        ({
            let after = match w.saw {
                Some(saw) => walk_fed(v, saw, w.io, w.names),
                None => if v.stage == Stage::Leaving {
                    moved_on(v)
                } else {
                    v
                },
            };
            after.links == (match w.saw {
                Some(Sight::Seen { meta, readable }) => if v.stage == Stage::Entry(Visit::Stat)
                    && !meta.dir() && meta.id.mnt == v.ctx.own_mnt {
                    linked(v.links, meta)
                } else {
                    v.links
                },
                _ => v.links,
            })
        }),
{
}

/// The first problem stays the one reported, and a tree's size never shrinks as
/// more of it is seen.
pub proof fn walk_only_learns(v: WalkRunView, saw: Sight, io: Seq<char>, names: Seq<Seq<u8>>)
    ensures
        v.problem is Some ==> walk_fed(v, saw, io, names).problem == v.problem,
        walk_fed(v, saw, io, names).size >= v.size,
{
}

impl WalkRun {
    /// The manifest is in order, and an entry at hand is not done with.
    pub open spec fn wf(self) -> bool {
        &&& self.walk.manifest.wf()
        &&& self.stage matches Stage::Entry(at) ==> at is Stat || at is Open || at is List
    }

    /// Starts a walk over `name`, of which `lstat` said `top`.
    pub fn begin(
        check: Check,
        name: &[u8],
        top: &Meta,
        access: Access,
        parent: Option<Meta>,
        readable: bool,
        io: &str,
    ) -> (r: WalkRun)
        ensures
            r.wf(),
            r@ == walk_begun(check, name@, *top, access, parent, readable, io@),
    {
        let uid = match check {
            Check::Removable { uid } => Some(uid),
            Check::Size => None,
        };
        let mut r = WalkRun {
            ctx: WalkCtx { own_mnt: top.id.mnt, uid },
            walk: Walk::new(),
            tree: Tree::new(),
            stage: Stage::Entry(Visit::Open(*top)),
            name: copy(name),
            key: Vec::new(),
            rel: copy(name),
            spot: Spot { sticky: false, owner: 0 },
        };
        if let Some(u) = uid {
            let p = removable_top_checks(access, parent, top, readable, u);
            r.walk.note(p, name, io);
        }
        if !top.is_dir() {
            r.walk.leaf(Vec::new(), top);
            assert(r@ =~= with_leaf(
                walk_ready(check, name@, *top, access, parent, readable, io@),
                *top,
            ));
            r.move_on();
        } else {
            assert(r@ =~= walk_ready(check, name@, *top, access, parent, readable, io@));
        }
        r
    }

    fn move_on(&mut self)
        requires
            old(self).wf(),
        ensures
            final(self).wf(),
            final(self)@ == moved_on(old(self)@),
    {
        let ghost was = self@;
        match self.tree.next() {
            Turn::Visit { name, key, rel, spot } => {
                self.stage = Stage::Entry(Visit::Stat);
                self.name = name;
                self.key = key;
                self.rel = rel;
                self.spot = spot;
            },
            Turn::Leave { name: _, rel: _ } => {
                self.stage = Stage::Leaving;
            },
            Turn::Done => {
                self.stage = Stage::Done;
            },
        }
        assert(self@ =~= moved_on(was));
    }

    /// Whether the size still fits after a report.
    pub fn fits(&self, saw: &Sight) -> (r: bool)
        requires
            self.wf(),
        ensures
            r == (self.walk.size + adds(self@, *saw) <= u64::MAX),
    {
        match (self.stage, saw) {
            (Stage::Entry(Visit::Stat), Sight::Seen { meta, readable: _ }) => {
                meta.id.mnt != self.ctx.own_mnt || meta.is_dir() || self.walk.manifest.holds(meta)
                    || self.walk.size <= u64::MAX - meta.size
            },
            _ => true,
        }
    }

    /// Takes in what the system said of the entry at hand: `io` is the text of
    /// its error, `names` are the names in a directory that was listed.
    pub fn feed(&mut self, saw: Sight, io: &str, names: Vec<Vec<u8>>)
        requires
            old(self).wf(),
            old(self).walk.size + adds(old(self)@, saw) <= u64::MAX,
        ensures
            final(self).wf(),
            final(self)@ == walk_fed(old(self)@, saw, io@, views(names@)),
    {
        let ghost was = self@;
        let at = match self.stage {
            Stage::Entry(at) => at,
            _ => return,
        };
        let (next, p) = walk_step(self.ctx, self.spot, at, saw);
        self.walk.note(p, self.rel.as_slice(), io);
        let ghost w = noted(was, p, io@);
        assert(self@ =~= w);
        match next {
            Visit::Leaf(m) => {
                self.walk.leaf(copy(self.key.as_slice()), &m);
                assert(self@ =~= with_leaf(w, m));
                self.move_on();
            },
            Visit::Barred(m) => {
                self.walk.dir(copy(self.key.as_slice()), &m);
                assert(self@ =~= with_dir(w, m));
                self.move_on();
            },
            Visit::Down(m) => {
                self.walk.dir(copy(self.key.as_slice()), &m);
                let f = Frame {
                    name: copy(self.name.as_slice()),
                    key: copy(self.key.as_slice()),
                    rel: copy(self.rel.as_slice()),
                    spot: Spot { sticky: m.sticky(), owner: m.uid },
                    todo: names,
                };
                self.tree.enter(f);
                assert(self@ =~= gone_into(with_dir(w, m), m, views(names@)));
                self.move_on();
            },
            Visit::Skip => {
                self.move_on();
            },
            _ => {
                self.stage = Stage::Entry(next);
                assert(self@ =~= WalkRunView { stage: Stage::Entry(next), ..w });
            },
        }
    }

    /// The innermost directory was closed.
    pub fn left(&mut self)
        requires
            old(self).wf(),
        ensures
            final(self).wf(),
            final(self)@ == (if old(self).stage == Stage::Leaving {
                moved_on(old(self)@)
            } else {
                old(self)@
            }),
    {
        if self.stage == Stage::Leaving {
            self.move_on();
        }
    }
}

} // verus!
