//! Removing a tree: what goes, what stays and why.
use vstd::prelude::*;
use vstd::string::*;

use crate::bytes::{copy, views};
use crate::sys::{one_file, vouched, Ident, Manifest, Meta, Record};
use crate::text::{escape, escaped};
use crate::tree::{turn_of, turned, Frame, FrameView, Spot, Tree, Turn, TurnView};

verus! {

/// How a tree is removed: on which mount, held against which manifest, and
/// whether it is trash, so that directories of ours may be made writable.
pub struct Remove<'a> {
    pub mnt: u64,
    pub manifest: Option<&'a Manifest>,
    pub trash: bool,
    pub uid: u32,
}

/// Why an entry stays.
#[derive(Clone, Copy, PartialEq, Eq, Debug, Structural)]
pub enum Why {
    /// The system reported an error.
    Io,
    /// A file that the manifest does not vouch for.
    ChangedOrNew,
    /// A directory that the manifest does not vouch for.
    New,
    /// A mount point, or whatever else is on another mount.
    MountPoint,
    /// Replaced between the look and the opening.
    Changed,
}

/// Why an entry stays, in words; `io` is what the system said.
pub open spec fn why_text(w: Why, io: Seq<char>) -> Seq<char> {
    match w {
        Why::Io => io,
        Why::ChangedOrNew => "changed or new since it was copied"@,
        Why::New => "new since it was copied"@,
        Why::MountPoint => "a mount point; not crossing it"@,
        Why::Changed => "changed during deletion"@,
    }
}

/// Where a removal stands with one entry.
#[derive(Clone, Copy, PartialEq, Eq, Debug, Structural)]
pub enum Doom {
    /// To be looked at.
    Stat,
    /// A file to be unlinked.
    Unlink,
    /// A directory to be opened.
    Open(Meta),
    /// A directory of ours in the trash that is to be made accessible.
    Widen(Meta),
    /// The same directory, to be opened again.
    Reopen(Meta),
    /// An open directory to be listed, after `u+rwx` is added where asked.
    List { meta: Meta, widen: bool },
    /// A directory whose names are known: to be gone through.
    Down,
    /// Unlinked.
    Removed,
    /// Already gone.
    Gone,
    /// Left where it is.
    Kept(Why),
}

/// What the system said while removing an entry.
#[derive(Clone, Copy, PartialEq, Eq, Debug, Structural)]
pub enum Fact {
    Missing,
    StatFailed,
    Seen(Meta),
    Unlinked,
    UnlinkMissing,
    UnlinkFailed,
    OpenDenied,
    OpenFailed,
    Opened { id: Option<Ident> },
    Widened,
    WidenFailed,
    Listed,
    ListFailed,
}

/// What a removal goes by.
#[derive(Clone, Copy, PartialEq, Eq, Debug, Structural)]
pub struct Policy {
    pub mnt: u64,
    pub listed_only: bool,
    pub trash: bool,
    pub uid: u32,
}

/// An opened directory is listed only if it is the one that was looked at, on
/// the mount that is being cleared.
pub open spec fn once_open(p: Policy, m: Meta, id: Option<Ident>) -> Doom {
    if id matches Some(i) && one_file(i, m.id) && i.mnt == p.mnt {
        Doom::List { meta: m, widen: p.trash && m.uid == p.uid && m.mode & 0o700 != 0o700 }
    } else {
        Doom::Kept(Why::Changed)
    }
}

/// One step of a removal with one entry; `ok` says whether the manifest vouches
/// for it.
pub open spec fn doomed(p: Policy, ok: bool, at: Doom, fact: Fact) -> Doom {
    match (at, fact) {
        (Doom::Stat, Fact::Missing) => Doom::Gone,
        (Doom::Stat, Fact::StatFailed) => Doom::Kept(Why::Io),
        (Doom::Stat, Fact::Seen(meta)) => if meta.id.mnt != p.mnt {
            Doom::Kept(Why::MountPoint)
        } else if !meta.dir() {
            if p.listed_only && !ok {
                Doom::Kept(Why::ChangedOrNew)
            } else {
                Doom::Unlink
            }
        } else if p.listed_only && !ok {
            Doom::Kept(Why::New)
        } else {
            Doom::Open(meta)
        },
        (Doom::Unlink, Fact::Unlinked) => Doom::Removed,
        (Doom::Unlink, Fact::UnlinkMissing) => Doom::Gone,
        (Doom::Unlink, Fact::UnlinkFailed) => Doom::Kept(Why::Io),
        (Doom::Open(m), Fact::OpenDenied) => if p.trash && m.uid == p.uid {
            Doom::Widen(m)
        } else {
            Doom::Kept(Why::Io)
        },
        (Doom::Open(m), Fact::OpenFailed) => Doom::Kept(Why::Io),
        (Doom::Open(m), Fact::Opened { id }) => once_open(p, m, id),
        (Doom::Widen(m), Fact::Widened) => Doom::Reopen(m),
        (Doom::Widen(m), Fact::WidenFailed) => Doom::Kept(Why::Io),
        (Doom::Reopen(m), Fact::OpenDenied) => Doom::Kept(Why::Io),
        (Doom::Reopen(m), Fact::OpenFailed) => Doom::Kept(Why::Io),
        (Doom::Reopen(m), Fact::Opened { id }) => once_open(p, m, id),
        (Doom::List { meta, widen }, Fact::Listed) => Doom::Down,
        (Doom::List { meta, widen }, Fact::ListFailed) => Doom::Kept(Why::Io),
        _ => at,
    }
}

fn check_open(p: Policy, m: Meta, id: Option<Ident>) -> (d: Doom)
    ensures
        d == once_open(p, m, id),
{
    let right = match id {
        Some(i) => i.same_file(&m.id) && i.mnt == p.mnt,
        None => false,
    };
    if right {
        Doom::List { meta: m, widen: p.trash && m.uid == p.uid && m.mode & 0o700 != 0o700 }
    } else {
        Doom::Kept(Why::Changed)
    }
}

/// Goes one step with one entry of a removal; `ok` says whether the manifest
/// vouches for it.
pub fn enter_or_unlink(p: Policy, ok: bool, at: Doom, fact: Fact) -> (d: Doom)
    ensures
        d == doomed(p, ok, at, fact),
{
    match (at, fact) {
        (Doom::Stat, Fact::Missing) => Doom::Gone,
        (Doom::Stat, Fact::StatFailed) => Doom::Kept(Why::Io),
        (Doom::Stat, Fact::Seen(meta)) => {
            if meta.id.mnt != p.mnt {
                Doom::Kept(Why::MountPoint)
            } else if !meta.is_dir() {
                if p.listed_only && !ok {
                    Doom::Kept(Why::ChangedOrNew)
                } else {
                    Doom::Unlink
                }
            } else if p.listed_only && !ok {
                Doom::Kept(Why::New)
            } else {
                Doom::Open(meta)
            }
        },
        (Doom::Unlink, Fact::Unlinked) => Doom::Removed,
        (Doom::Unlink, Fact::UnlinkMissing) => Doom::Gone,
        (Doom::Unlink, Fact::UnlinkFailed) => Doom::Kept(Why::Io),
        (Doom::Open(m), Fact::OpenDenied) => {
            if p.trash && m.uid == p.uid {
                Doom::Widen(m)
            } else {
                Doom::Kept(Why::Io)
            }
        },
        (Doom::Open(_), Fact::OpenFailed) => Doom::Kept(Why::Io),
        (Doom::Open(m), Fact::Opened { id }) => check_open(p, m, id),
        (Doom::Widen(m), Fact::Widened) => Doom::Reopen(m),
        (Doom::Widen(_), Fact::WidenFailed) => Doom::Kept(Why::Io),
        (Doom::Reopen(_), Fact::OpenDenied) => Doom::Kept(Why::Io),
        (Doom::Reopen(_), Fact::OpenFailed) => Doom::Kept(Why::Io),
        (Doom::Reopen(m), Fact::Opened { id }) => check_open(p, m, id),
        (Doom::List { meta: _, widen: _ }, Fact::Listed) => Doom::Down,
        (Doom::List { meta: _, widen: _ }, Fact::ListFailed) => Doom::Kept(Why::Io),
        _ => at,
    }
}

/// What a removal does with an entry that it has looked at: anything on another
/// mount stays; with a manifest, what that does not vouch for stays; any other
/// file is unlinked, and any other directory opened. What is not there is gone.
pub proof fn what_may_go_goes(p: Policy, ok: bool, m: Meta)
    ensures
        ({
            let next = doomed(p, ok, Doom::Stat, Fact::Seen(m));
            let dir = m.mode & 0o170000 == 0o040000;
            if m.id.mnt != p.mnt {
                next == Doom::Kept(Why::MountPoint)
            } else if p.listed_only && !ok {
                next == Doom::Kept(
                    if dir {
                        Why::New
                    } else {
                        Why::ChangedOrNew
                    },
                )
            } else if dir {
                next == Doom::Open(m)
            } else {
                next == Doom::Unlink
            }
        }),
        doomed(p, ok, Doom::Stat, Fact::Missing) == Doom::Gone,
        doomed(p, ok, Doom::Stat, Fact::StatFailed) == Doom::Kept(Why::Io),
        doomed(p, ok, Doom::Unlink, Fact::Unlinked) == Doom::Removed,
        doomed(p, ok, Doom::Unlink, Fact::UnlinkMissing) == Doom::Gone,
        doomed(p, ok, Doom::Unlink, Fact::UnlinkFailed) == Doom::Kept(Why::Io),
{
}

/// A directory that is opened is listed if it is the one that was seen, on the
/// mount that is being cleared, made accessible first where it is trash of ours
/// without all its owner's rights; any other stays. One of ours in the trash that
/// cannot be opened is made accessible and tried once more.
pub proof fn a_directory_that_is_opened_is_listed(p: Policy, ok: bool, m: Meta, i: Ident)
    ensures
        ({
            let ours = p.trash && m.uid == p.uid;
            let opened = Fact::Opened { id: Some(i) };
            let same = i.dev == m.id.dev && i.ino == m.id.ino && i.mnt == p.mnt;
            let then = if same {
                Doom::List { meta: m, widen: ours && m.mode & 0o700 != 0o700 }
            } else {
                Doom::Kept(Why::Changed)
            };
            &&& doomed(p, ok, Doom::Open(m), opened) == then
            &&& doomed(p, ok, Doom::Reopen(m), opened) == then
            &&& doomed(p, ok, Doom::Open(m), Fact::Opened { id: None }) == Doom::Kept(Why::Changed)
            &&& doomed(p, ok, Doom::Open(m), Fact::OpenDenied) == (if ours {
                Doom::Widen(m)
            } else {
                Doom::Kept(Why::Io)
            })
            &&& doomed(p, ok, Doom::Open(m), Fact::OpenFailed) == Doom::Kept(Why::Io)
            &&& doomed(p, ok, Doom::Widen(m), Fact::Widened) == Doom::Reopen(m)
            &&& doomed(p, ok, Doom::Widen(m), Fact::WidenFailed) == Doom::Kept(Why::Io)
            &&& doomed(p, ok, Doom::Reopen(m), Fact::OpenDenied) == Doom::Kept(Why::Io)
            &&& doomed(p, ok, Doom::Reopen(m), Fact::OpenFailed) == Doom::Kept(Why::Io)
        }),
        forall|meta: Meta, widen: bool| #[trigger]
            doomed(p, ok, Doom::List { meta, widen }, Fact::Listed) == Doom::Down,
        forall|meta: Meta, widen: bool| #[trigger]
            doomed(p, ok, Doom::List { meta, widen }, Fact::ListFailed) == Doom::Kept(Why::Io),
{
}

/// What a removal came to.
pub struct Removal {
    pub removed_any: bool,
    pub kept: Vec<(Vec<u8>, String)>,
}

/// What a list of kept entries holds.
pub open spec fn kept_views(v: Seq<(Vec<u8>, String)>) -> Seq<(Seq<u8>, Seq<char>)> {
    Seq::new(v.len(), |i: int| (v[i].0@, v[i].1@))
}

impl<'a> Remove<'a> {
    /// What the removal goes by.
    pub open spec fn rules(self) -> Policy {
        Policy { mnt: self.mnt, listed_only: self.manifest is Some, trash: self.trash, uid: self.uid }
    }

    /// What the manifest holds, nothing where there is none.
    pub open spec fn entries(self) -> Map<Seq<u8>, Record> {
        match self.manifest {
            Some(mf) => mf.entries(),
            None => Map::empty(),
        }
    }

    pub fn policy(&self) -> (p: Policy)
        ensures
            p == self.rules(),
    {
        Policy {
            mnt: self.mnt,
            listed_only: self.manifest.is_some(),
            trash: self.trash,
            uid: self.uid,
        }
    }

    /// Whether the manifest, if there is one, vouches for an entry.
    pub fn vouches(&self, path: &Vec<u8>, m: &Meta) -> (r: bool)
        requires
            self.manifest matches Some(mf) ==> mf.wf(),
        ensures
            r == vouched(self.entries(), path@, *m),
    {
        match self.manifest {
            Some(mf) => mf.vouches(path, m),
            None => false,
        }
    }
}

impl Removal {
    /// Nothing done yet.
    pub fn new() -> (r: Removal)
        ensures
            !r.removed_any,
            kept_views(r.kept@) == Seq::<(Seq<u8>, Seq<char>)>::empty(),
    {
        let r = Removal { removed_any: false, kept: Vec::new() };
        assert(kept_views(r.kept@) =~= Seq::empty());
        r
    }

    /// Puts down what came of one entry, a directory on leaving included.
    pub fn tally(&mut self, rel: Vec<u8>, came_to: Doom, io: &str)
        ensures
            final(self).removed_any == (old(self).removed_any || came_to is Removed),
            kept_views(final(self).kept@) == (match came_to {
                Doom::Kept(w) => kept_views(old(self).kept@).push((rel@, why_text(w, io@))),
                _ => kept_views(old(self).kept@),
            }),
    {
        match came_to {
            Doom::Removed => {
                self.removed_any = true;
            },
            Doom::Kept(w) => {
                let text = match w {
                    Why::Io => io.to_owned(),
                    Why::ChangedOrNew => "changed or new since it was copied".to_owned(),
                    Why::New => "new since it was copied".to_owned(),
                    Why::MountPoint => "a mount point; not crossing it".to_owned(),
                    Why::Changed => "changed during deletion".to_owned(),
                };
                let ghost was = kept_views(self.kept@);
                self.kept.push((rel, text));
                assert(kept_views(self.kept@) =~= was.push((rel@, why_text(w, io@))));
            },
            _ => {},
        }
    }
}

/// What removing an emptied directory came to. `UnlinkFailed` covers a
/// directory in which something was kept or has appeared.
pub open spec fn left_dir(fact: Fact) -> Doom {
    doomed(Policy { mnt: 0, listed_only: false, trash: false, uid: 0 }, false, Doom::Unlink, fact)
}

/// What removing an emptied directory came to.
pub fn leave_dir(fact: Fact) -> (d: Doom)
    ensures
        d == left_dir(fact),
{
    enter_or_unlink(
        Policy { mnt: 0, listed_only: false, trash: false, uid: 0 },
        false,
        Doom::Unlink,
        fact,
    )
}

/// `REL: WHY`, the entries one after the other with `; ` between them.
pub open spec fn summary_of(kept: Seq<(Seq<u8>, Seq<char>)>) -> Seq<char>
    decreases kept.len(),
{
    if kept.len() == 0 {
        Seq::empty()
    } else {
        let one = escaped(kept.last().0) + ": "@ + kept.last().1;
        if kept.len() == 1 {
            one
        } else {
            summary_of(kept.drop_last()) + "; "@ + one
        }
    }
}

/// Sums up what a removal kept.
pub fn removal_summary(rm: &Removal) -> (s: String)
    ensures
        s@ == summary_of(kept_views(rm.kept@)),
{
    let ghost all = kept_views(rm.kept@);
    let mut s = String::new();
    let mut i: usize = 0;
    assert(all.take(0) =~= Seq::empty());
    while i < rm.kept.len()
        invariant
            i <= rm.kept.len(),
            all == kept_views(rm.kept@),
            s@ == summary_of(all.take(i as int)),
        decreases rm.kept.len() - i,
    {
        assert(all.take(i + 1).drop_last() =~= all.take(i as int));
        assert(all.take(i + 1).last() == all[i as int]);
        let ghost was = s@;
        if i > 0 {
            s.append("; ");
        }
        s.append(escape(rm.kept[i].0.as_slice()).as_str());
        s.append(": ");
        s.append(rm.kept[i].1.as_str());
        assert(s@ =~= summary_of(all.take(i + 1)));
        i = i + 1;
    }
    assert(all.take(all.len() as int) =~= all);
    s
}

/// A summary names every entry that was kept, with the reason, in their order and
/// with a semicolon between them.
pub proof fn a_summary_names_all(kept: Seq<(Seq<u8>, Seq<char>)>, x: (Seq<u8>, Seq<char>))
    ensures
        summary_of(Seq::<(Seq<u8>, Seq<char>)>::empty()).len() == 0,
        summary_of(kept.push(x)) == (if kept.len() == 0 {
            escaped(x.0) + ": "@ + x.1
        } else {
            summary_of(kept) + "; "@ + (escaped(x.0) + ": "@ + x.1)
        }),
{
    assert(kept.push(x).drop_last() =~= kept);
}

// ---------------------------------------------------------------------------
// The whole removal
// ---------------------------------------------------------------------------

/// Where a removal stands.
#[derive(Clone, Copy, PartialEq, Eq, Debug, Structural)]
pub enum Stage {
    /// With the entry at hand.
    Entry(Doom),
    /// The innermost directory is done with: to be closed and removed.
    Leaving,
    Done,
}

/// A removal under way: what it came to so far, the directories it is in, and
/// the entry at hand.
pub struct RemoveRun<'a> {
    pub how: Remove<'a>,
    pub out: Removal,
    pub tree: Tree,
    pub stage: Stage,
    /// The name of the entry at hand in the innermost directory.
    pub name: Vec<u8>,
    /// Its path relative to the top of the tree.
    pub key: Vec<u8>,
    /// Its path as shown.
    pub rel: Vec<u8>,
}

/// What a `RemoveRun` holds.
#[verifier::ext_equal]
pub struct RemoveRunView {
    pub rules: Policy,
    /// What the manifest holds, nothing where there is none.
    pub entries: Map<Seq<u8>, Record>,
    pub removed_any: bool,
    pub kept: Seq<(Seq<u8>, Seq<char>)>,
    pub frames: Seq<FrameView>,
    pub stage: Stage,
    pub name: Seq<u8>,
    pub key: Seq<u8>,
    pub rel: Seq<u8>,
}

impl<'a> View for RemoveRun<'a> {
    type V = RemoveRunView;

    open spec fn view(&self) -> RemoveRunView {
        RemoveRunView {
            rules: self.how.rules(),
            entries: self.how.entries(),
            removed_any: self.out.removed_any,
            kept: kept_views(self.out.kept@),
            frames: self.tree@,
            stage: self.stage,
            name: self.name@,
            key: self.key@,
            rel: self.rel@,
        }
    }
}

/// What came of an entry, put down.
pub open spec fn tallied(v: RemoveRunView, came_to: Doom, io: Seq<char>) -> RemoveRunView {
    match came_to {
        Doom::Removed => RemoveRunView { removed_any: true, ..v },
        Doom::Kept(w) => RemoveRunView { kept: v.kept.push((v.rel, why_text(w, io))), ..v },
        _ => v,
    }
}

/// On to the next entry, or to leaving a directory.
pub open spec fn moved_on(v: RemoveRunView) -> RemoveRunView {
    match turn_of(v.frames) {
        TurnView::Visit { name, key, rel, spot } => RemoveRunView {
            frames: turned(v.frames),
            stage: Stage::Entry(Doom::Stat),
            name,
            key,
            rel,
            ..v
        },
        TurnView::Leave { name, rel } => RemoveRunView {
            frames: turned(v.frames),
            stage: Stage::Leaving,
            name,
            rel,
            ..v
        },
        TurnView::Done => RemoveRunView { frames: turned(v.frames), stage: Stage::Done, ..v },
    }
}

/// A removal after one more report of the system.
pub open spec fn remove_fed(
    v: RemoveRunView,
    fact: Fact,
    io: Seq<char>,
    names: Seq<Seq<u8>>,
) -> RemoveRunView {
    let ok = fact matches Fact::Seen(m) && vouched(v.entries, v.key, m);
    match v.stage {
        Stage::Entry(at) => match doomed(v.rules, ok, at, fact) {
            Doom::Down => moved_on(
                RemoveRunView {
                    frames: v.frames.push(
                        FrameView {
                            name: v.name,
                            key: v.key,
                            rel: v.rel,
                            spot: Spot { sticky: false, owner: 0 },
                            todo: names,
                        },
                    ),
                    ..v
                },
            ),
            Doom::Removed => moved_on(tallied(v, Doom::Removed, io)),
            Doom::Gone => moved_on(v),
            Doom::Kept(w) => moved_on(tallied(v, Doom::Kept(w), io)),
            next => RemoveRunView { stage: Stage::Entry(next), ..v },
        },
        Stage::Leaving => match left_dir(fact) {
            Doom::Unlink => v,
            came_to => moved_on(tallied(v, came_to, io)),
        },
        Stage::Done => v,
    }
}

/// A removal at its start.
pub open spec fn remove_begun(
    p: Policy,
    entries: Map<Seq<u8>, Record>,
    name: Seq<u8>,
) -> RemoveRunView {
    RemoveRunView {
        rules: p,
        entries,
        removed_any: false,
        kept: Seq::empty(),
        frames: Seq::empty(),
        stage: Stage::Entry(Doom::Stat),
        name,
        key: Seq::empty(),
        rel: name,
    }
}

/// A report of the system: what it said, the text of its error, and the names in
/// a directory that was listed.
pub struct Word {
    pub fact: Fact,
    pub io: Seq<char>,
    pub names: Seq<Seq<u8>>,
}

/// A removal after a course of reports, held against what a manifest holds.
pub open spec fn remove_run(
    p: Policy,
    entries: Map<Seq<u8>, Record>,
    name: Seq<u8>,
    words: Seq<Word>,
) -> RemoveRunView
    decreases words.len(),
{
    if words.len() == 0 {
        remove_begun(p, entries, name)
    } else {
        let w = words.last();
        remove_fed(remove_run(p, entries, name, words.drop_last()), w.fact, w.io, w.names)
    }
}

/// An entry that a removal has looked at and goes on with: where there is a
/// manifest, it vouches for what is at this path.
pub open spec fn cleared(
    p: Policy,
    entries: Map<Seq<u8>, Record>,
    key: Seq<u8>,
    m: Meta,
) -> bool {
    p.listed_only ==> vouched(entries, key, m)
}

/// A directory was opened, and is the one that was seen, on the mount that is
/// being cleared.
pub open spec fn opened_as(w: Word, p: Policy, m: Meta) -> bool {
    w.fact matches Fact::Opened { id } && id matches Some(i) && one_file(i, m.id) && i.mnt == p.mnt
}

/// Whatever the system reports: a file is unlinked only after it was seen to be
/// no directory, on the mount that is being cleared; a directory is opened and
/// widened only on that mount, and listed only if what was opened is the directory that was
/// seen there; with a manifest all this only where it vouches for what was seen
/// at that very path. Modes are changed only in the trash, on directories of
/// ours.
pub proof fn removal_is_held_to_its_rules(
    p: Policy,
    entries: Map<Seq<u8>, Record>,
    name: Seq<u8>,
    words: Seq<Word>,
)
    ensures
        ({
            let v = remove_run(p, entries, name, words);
            v.rules == p && v.entries == entries && match v.stage {
                Stage::Entry(Doom::Unlink) => exists|i: int|
                    0 <= i < words.len() && ((#[trigger] words[i]).fact matches Fact::Seen(m)
                        && !m.dir() && m.id.mnt == p.mnt && cleared(p, entries, v.key, m)),
                Stage::Entry(Doom::Open(m)) => m.dir() && m.id.mnt == p.mnt && cleared(
                    p,
                    entries,
                    v.key,
                    m,
                ),
                Stage::Entry(Doom::Widen(m)) => m.dir() && m.id.mnt == p.mnt && cleared(
                    p,
                    entries,
                    v.key,
                    m,
                ) && p.trash && m.uid == p.uid,
                Stage::Entry(Doom::Reopen(m)) => m.dir() && m.id.mnt == p.mnt && cleared(
                    p,
                    entries,
                    v.key,
                    m,
                ) && p.trash && m.uid == p.uid,
                Stage::Entry(Doom::List { meta, widen }) => meta.dir() && meta.id.mnt == p.mnt
                    && cleared(p, entries, v.key, meta) && (widen ==> p.trash && meta.uid == p.uid)
                    && (exists|i: int| 0 <= i < words.len() && opened_as(#[trigger] words[i], p, meta)),
                Stage::Entry(at) => at is Stat,
                _ => true,
            }
        }),
    decreases words.len(),
{
    if words.len() > 0 {
        let front = words.drop_last();
        let v = remove_run(p, entries, name, front);
        let w = words.last();
        removal_is_held_to_its_rules(p, entries, name, front);
        assert(words[words.len() - 1] == w);
        if v.stage == Stage::Entry(Doom::Unlink) {
            let i = choose|i: int|
                0 <= i < front.len() && ((#[trigger] front[i]).fact matches Fact::Seen(m)
                    && !m.dir() && m.id.mnt == p.mnt && cleared(p, entries, v.key, m));
            assert(words[i] == front[i]);
        }
        if let Stage::Entry(Doom::List { meta, widen }) = v.stage {
            let i = choose|i: int|
                0 <= i < front.len() && opened_as(#[trigger] front[i], p, meta);
            assert(words[i] == front[i]);
        }
    }
}

/// What was kept stays on the list, and what was removed stays removed.
pub proof fn removal_only_adds(
    v: RemoveRunView,
    fact: Fact,
    io: Seq<char>,
    names: Seq<Seq<u8>>,
)
    ensures
        v.removed_any ==> remove_fed(v, fact, io, names).removed_any,
        v.kept.len() <= remove_fed(v, fact, io, names).kept.len(),
        remove_fed(v, fact, io, names).kept.take(v.kept.len() as int) == v.kept,
{
    assert(v.kept.take(v.kept.len() as int) =~= v.kept);
    assert forall|x: (Seq<u8>, Seq<char>)| #[trigger]
        v.kept.push(x).take(v.kept.len() as int) == v.kept by {
        assert(v.kept.push(x).take(v.kept.len() as int) =~= v.kept);
    }
}

/// A directory that was listed is gone through name by name before it is removed
/// itself. What is removed, or is gone, is done with; what stays is put on the
/// list by its path and with the reason. After each the next turn comes.
pub proof fn a_removal_takes_its_turns(
    v: RemoveRunView,
    fact: Fact,
    io: Seq<char>,
    names: Seq<Seq<u8>>,
)
    ensures
        ({
            let n = remove_fed(v, fact, io, names);
            let ok = fact is Seen && vouched(v.entries, v.key, fact->Seen_0);
            let next = match v.stage {
                Stage::Entry(at) => doomed(v.rules, ok, at, fact),
                Stage::Leaving => match fact {
                    Fact::Unlinked => Doom::Removed,
                    Fact::UnlinkMissing => Doom::Gone,
                    Fact::UnlinkFailed => Doom::Kept(Why::Io),
                    _ => Doom::Unlink,
                },
                Stage::Done => Doom::Unlink,
            };
            let entered = FrameView {
                name: v.name,
                key: v.key,
                rel: v.rel,
                spot: Spot { sticky: false, owner: 0 },
                todo: names,
            };
            let frames = if next is Down {
                v.frames.push(entered)
            } else {
                v.frames
            };
            &&& v.stage == Stage::Done ==> n == v
            &&& n.removed_any == (v.removed_any || next is Removed)
            &&& n.kept == (match next {
                Doom::Kept(Why::Io) => v.kept.push((v.rel, io)),
                Doom::Kept(Why::ChangedOrNew) => v.kept.push(
                    (v.rel, "changed or new since it was copied"@),
                ),
                Doom::Kept(Why::New) => v.kept.push((v.rel, "new since it was copied"@)),
                Doom::Kept(Why::MountPoint) => v.kept.push(
                    (v.rel, "a mount point; not crossing it"@),
                ),
                Doom::Kept(Why::Changed) => v.kept.push((v.rel, "changed during deletion"@)),
                _ => v.kept,
            })
            &&& next is Down || next is Removed || next is Gone || next is Kept ==> n.frames
                == turned(frames) && (match turn_of(frames) {
                TurnView::Visit { name, key, rel, spot } => n.stage == Stage::Entry(Doom::Stat)
                    && n.name == name && n.key == key && n.rel == rel,
                TurnView::Leave { name, rel } => n.stage == Stage::Leaving && n.name == name
                    && n.rel == rel,
                TurnView::Done => n.stage == Stage::Done,
            })
            &&& !(next is Down || next is Removed || next is Gone || next is Kept) ==> n.frames
                == v.frames && n.name == v.name && n.key == v.key && n.rel == v.rel && (
            v.stage is Entry ==> n.stage == Stage::Entry(next))
        }),
        remove_begun(v.rules, v.entries, v.name).stage == Stage::Entry(Doom::Stat),
        remove_begun(v.rules, v.entries, v.name).frames.len() == 0,
        remove_begun(v.rules, v.entries, v.name).key.len() == 0,
        remove_begun(v.rules, v.entries, v.name).rel == v.name,
{
}

/// The entry at hand, or the directory being left, is to be unlinked.
pub open spec fn unlinking(v: RemoveRunView) -> bool {
    v.stage == Stage::Entry(Doom::Unlink) || v.stage == Stage::Leaving
}

/// The `i`th report said that the top of the tree was unlinked, or is not there.
pub open spec fn top_went(
    p: Policy,
    entries: Map<Seq<u8>, Record>,
    name: Seq<u8>,
    words: Seq<Word>,
    i: int,
) -> bool {
    let v = remove_run(p, entries, name, words.take(i));
    v.frames.len() == 0 && v.stage != Stage::Done && (words[i].fact is Missing
        || words[i].fact is Unlinked || words[i].fact is UnlinkMissing)
}

/// What a removal tells of itself is so: something was removed just where the
/// system once reported that; and a removal that is done and has kept nothing
/// ended with the top of the tree unlinked or not there.
pub proof fn removal_tells_the_truth(
    p: Policy,
    entries: Map<Seq<u8>, Record>,
    name: Seq<u8>,
    words: Seq<Word>,
)
    ensures
        remove_run(p, entries, name, words).removed_any <==> exists|i: int|
            0 <= i < words.len() && (#[trigger] words[i]).fact is Unlinked && unlinking(
                remove_run(p, entries, name, words.take(i)),
            ),
        remove_run(p, entries, name, words).stage == Stage::Done && remove_run(
            p,
            entries,
            name,
            words,
        ).kept.len() == 0 ==> exists|i: int|
            0 <= i < words.len() && #[trigger] top_went(p, entries, name, words, i),
    decreases words.len(),
{
    if words.len() > 0 {
        let n = words.len() - 1;
        let front = words.drop_last();
        let v = remove_run(p, entries, name, front);
        let w = words.last();
        removal_tells_the_truth(p, entries, name, front);
        removal_is_held_to_its_rules(p, entries, name, front);
        assert(words.take(n) =~= front);
        assert(words[n] == w);
        assert forall|i: int| 0 <= i < n implies #[trigger] front.take(i) == words.take(i) by {
            assert(front.take(i) =~= words.take(i));
        }
        if v.removed_any {
            let i = choose|i: int|
                0 <= i < front.len() && (#[trigger] front[i]).fact is Unlinked && unlinking(
                    remove_run(p, entries, name, front.take(i)),
                );
            assert(words[i] == front[i]);
            assert(front.take(i) == words.take(i));
        } else if !(w.fact is Unlinked && unlinking(v)) {
            assert forall|i: int| 0 <= i < words.len() && (#[trigger] words[i]).fact is
                Unlinked implies !unlinking(remove_run(p, entries, name, words.take(i))) by {
                if i < n {
                    assert(front[i] == words[i]);
                    assert(front.take(i) == words.take(i));
                }
            }
        }
        if v.stage == Stage::Done {
            if v.kept.len() == 0 {
                let i = choose|i: int|
                    0 <= i < front.len() && #[trigger] top_went(p, entries, name, front, i);
                assert(words[i] == front[i]);
                assert(front.take(i) == words.take(i));
                assert(top_went(p, entries, name, words, i));
            }
        } else if remove_run(p, entries, name, words).stage == Stage::Done && remove_run(
            p,
            entries,
            name,
            words,
        ).kept.len() == 0 {
            assert(top_went(p, entries, name, words, n));
        }
    }
}

impl<'a> RemoveRun<'a> {
    /// A manifest is in order, and an entry at hand is not done with.
    pub open spec fn wf(self) -> bool {
        &&& self.how.manifest matches Some(mf) ==> mf.wf()
        &&& self.stage matches Stage::Entry(at) ==> at is Stat || at is Unlink || at is Open
            || at is Widen || at is Reopen || at is List
    }

    /// Starts to remove `name`.
    pub fn begin(how: Remove<'a>, name: &[u8]) -> (r: RemoveRun<'a>)
        requires
            how.manifest matches Some(mf) ==> mf.wf(),
        ensures
            r.wf(),
            r.how == how,
            r@ == remove_begun(how.rules(), how.entries(), name@),
    {
        let r = RemoveRun {
            how,
            out: Removal::new(),
            tree: Tree::new(),
            stage: Stage::Entry(Doom::Stat),
            name: copy(name),
            key: Vec::new(),
            rel: copy(name),
        };
        assert(r@ =~= remove_begun(how.rules(), how.entries(), name@));
        r
    }

    fn move_on(&mut self)
        requires
            old(self).wf(),
        ensures
            final(self).wf(),
            final(self).how == old(self).how,
            final(self)@ == moved_on(old(self)@),
    {
        let ghost was = self@;
        match self.tree.next() {
            Turn::Visit { name, key, rel, spot: _ } => {
                self.stage = Stage::Entry(Doom::Stat);
                self.name = name;
                self.key = key;
                self.rel = rel;
            },
            Turn::Leave { name, rel } => {
                self.stage = Stage::Leaving;
                self.name = name;
                self.rel = rel;
            },
            Turn::Done => {
                self.stage = Stage::Done;
            },
        }
        assert(self@ =~= moved_on(was));
    }

    /// Takes in what the system said of the entry at hand, or of the directory
    /// that is being left: `io` is the text of its error, `names` are the names
    /// in a directory that was listed.
    pub fn feed(&mut self, fact: Fact, io: &str, names: Vec<Vec<u8>>)
        requires
            old(self).wf(),
        ensures
            final(self).wf(),
            final(self).how == old(self).how,
            final(self)@ == remove_fed(old(self)@, fact, io@, views(names@)),
    {
        let ghost was = self@;
        match self.stage {
            Stage::Entry(at) => {
                let ok = match fact {
                    Fact::Seen(m) => self.how.vouches(&self.key, &m),
                    _ => false,
                };
                let next = enter_or_unlink(self.how.policy(), ok, at, fact);
                match next {
                    Doom::Down => {
                        let f = Frame {
                            name: copy(self.name.as_slice()),
                            key: copy(self.key.as_slice()),
                            rel: copy(self.rel.as_slice()),
                            spot: Spot { sticky: false, owner: 0 },
                            todo: names,
                        };
                        self.tree.enter(f);
                        assert(self@.frames =~= was.frames.push(f@));
                        self.move_on();
                    },
                    Doom::Removed | Doom::Gone | Doom::Kept(_) => {
                        let rel = copy(self.rel.as_slice());
                        self.out.tally(rel, next, io);
                        assert(self@ =~= tallied(was, next, io@));
                        self.move_on();
                    },
                    _ => {
                        self.stage = Stage::Entry(next);
                        assert(self@ =~= RemoveRunView { stage: Stage::Entry(next), ..was });
                    },
                }
            },
            Stage::Leaving => {
                let came_to = leave_dir(fact);
                if let Doom::Unlink = came_to {
                    return;
                }
                let rel = copy(self.rel.as_slice());
                self.out.tally(rel, came_to, io);
                assert(self@ =~= tallied(was, came_to, io@));
                self.move_on();
            },
            Stage::Done => {},
        }
    }
}

} // verus!
