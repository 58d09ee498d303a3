//! Deleting from a trash directory for good.
//!
//! An entry is first renamed out of `files/`, to a tombstone in the staging
//! directory, under the exclusive lock; the slow removal of tombstones follows
//! without it.
use vstd::prelude::*;
use vstd::string::*;

use crate::bytes::{copy, has_prefix, lit, of, same, strip_prefix};
use crate::load::{read_view, InfoRead, Look, Orphan};
use crate::remove::kept_views;
use crate::sys::{one_file, Ident, Meta};
use crate::text::{decimal, number};
use crate::trash::{is_malformed_entry_name, malformed_name, Trash};

verus! {

// ---------------------------------------------------------------------------
// A second look
// ---------------------------------------------------------------------------

/// An info file is the one that was read, with the same bytes.
pub open spec fn same_info(now: Option<(Ident, Seq<u8>)>, then: (Ident, Seq<u8>)) -> bool {
    now matches Some(n) && one_file(n.0, then.0) && n.1 == then.1
}

/// Whether an info file is still the one that was read.
pub fn info_matches(now: &Option<InfoRead>, then: &InfoRead) -> (r: bool)
    ensures
        r == same_info(read_view(*now), then@),
{
    match now {
        Some(n) => n.id.same_file(&then.id) && same(n.bytes.as_slice(), then.bytes.as_slice()),
        None => false,
    }
}

/// An entry is the one that was read.
pub open spec fn same_entry(now: Option<Ident>, then: Ident) -> bool {
    now matches Some(n) && one_file(n, then)
}

/// Whether an item is still what was read: its entry and its info, bytes and
/// all. A name can be free and used again between the two looks.
pub fn still_same(
    entry_now: Option<Ident>,
    info_now: &Option<InfoRead>,
    entry: Ident,
    info: &InfoRead,
) -> (r: bool)
    ensures
        r == (same_entry(entry_now, entry) && same_info(read_view(*info_now), info@)),
{
    match entry_now {
        None => false,
        Some(n) => n.same_file(&entry) && info_matches(info_now, info),
    }
}

/// An orphan is what was read: its entry, and that it has no info, or the same
/// malformed one. An info that could not be opened then either is compared by
/// its identity alone.
pub open spec fn orphan_same(
    entry_now: Option<Ident>,
    info_lstat: Look,
    info_now: Option<(Ident, Seq<u8>)>,
    entry: Ident,
    info: Option<(Ident, Seq<u8>)>,
) -> bool {
    same_entry(entry_now, entry) && (match info {
        None => info_lstat is Missing,
        Some(then) => match info_now {
            Some(n) => one_file(n.0, then.0) && n.1 == then.1,
            None => then.1.len() == 0 && (info_lstat matches Look::Found(m) && one_file(
                m.id,
                then.0,
            )),
        },
    })
}

/// Whether an orphan is still what was read.
pub fn orphan_still_same(
    entry_now: Option<Ident>,
    info_lstat: Look,
    info_now: &Option<InfoRead>,
    o: &Orphan,
) -> (r: bool)
    ensures
        r == orphan_same(entry_now, info_lstat, read_view(*info_now), o.entry, read_view(o.info)),
{
    match entry_now {
        None => return false,
        Some(n) => {
            if !n.same_file(&o.entry) {
                return false;
            }
        },
    }
    match &o.info {
        None => match info_lstat {
            Look::Missing => true,
            _ => false,
        },
        Some(then) => match info_now {
            Some(n) => n.id.same_file(&then.id) && same(
                n.bytes.as_slice(),
                then.bytes.as_slice(),
            ),
            None => match info_lstat {
                Look::Found(m) => then.bytes.len() == 0 && m.id.same_file(&then.id),
                _ => false,
            },
        },
    }
}

/// An info still dangles: its entry is missing, and it is the same file. A name
/// that no entry can have is never looked up.
pub open spec fn dangles(
    name: Seq<u8>,
    files: Look,
    info_now: Option<Ident>,
    info: Ident,
) -> bool {
    (malformed_name(name) || files is Missing) && same_entry(info_now, info)
}

/// Whether an info still dangles. `files` does not count for a name that no
/// entry can have.
pub fn still_dangles(name: &[u8], files: Look, info_now: Option<Ident>, info: Ident) -> (r: bool)
    ensures
        r == dangles(name@, files, info_now, info),
{
    let missing = is_malformed_entry_name(name) || match files {
        Look::Missing => true,
        _ => false,
    };
    match info_now {
        None => false,
        Some(n) => missing && n.same_file(&info),
    }
}

/// A second look takes an info file for the one that was read only where it is
/// the same file with the same bytes, and an entry only where it is the same file.
/// An orphan without an info must still have none; one with an info that could
/// not be read must still have that file. An info dangles while its entry is
/// missing.
pub proof fn a_second_look_sees_a_change(
    now: Option<(Ident, Seq<u8>)>,
    then: (Ident, Seq<u8>),
    entry_now: Option<Ident>,
    entry: Ident,
    look: Look,
    name: Seq<u8>,
)
    ensures
        same_info(now, then) <==> now is Some && (now->0).0.dev == then.0.dev && (now->0).0.ino
            == then.0.ino && (now->0).1 == then.1,
        same_entry(entry_now, entry) <==> entry_now is Some && (entry_now->0).dev == entry.dev && (
        entry_now->0).ino == entry.ino,
        orphan_same(entry_now, look, now, entry, None) <==> same_entry(entry_now, entry) && look
            is Missing,
        now is Some ==> (orphan_same(entry_now, look, now, entry, Some(then)) <==> same_entry(
            entry_now,
            entry,
        ) && same_info(now, then)),
        now is None ==> (orphan_same(entry_now, look, now, entry, Some(then)) <==> same_entry(
            entry_now,
            entry,
        ) && then.1.len() == 0 && look is Found && look->Found_0.id.dev == then.0.dev
            && look->Found_0.id.ino == then.0.ino),
        dangles(name, look, entry_now, entry) <==> (malformed_name(name) || look is Missing)
            && same_entry(entry_now, entry),
{
}

// ---------------------------------------------------------------------------
// One entry
// ---------------------------------------------------------------------------

/// What is to be deleted.
#[derive(Clone, Copy, PartialEq, Eq, Debug, Structural)]
pub enum Doomed {
    Item,
    /// An orphan, with a malformed info or with none.
    Orphan { info: bool },
    /// An info without an entry.
    Dangling,
}

/// Why an entry stays.
#[derive(Clone, Copy, PartialEq, Eq, Debug, Structural)]
pub enum Stay {
    Changed,
    /// A mount is in the way.
    Mount,
    Io,
}

/// Where the deletion of one entry stands.
#[derive(Clone, Copy, PartialEq, Eq, Debug, Structural)]
pub enum Fate {
    /// Look again whether it is what was read.
    Recheck,
    /// Look whether a mount is in the way.
    Mounts,
    /// Rename it to a tombstone.
    Tomb,
    /// Unlink its info file.
    Unlink,
    Deleted,
    Stays(Stay),
    /// No longer dangling: nothing to do and nothing to say.
    Resolved,
}

/// What came of a step in deleting one entry.
#[derive(Clone, Copy, PartialEq, Eq, Debug, Structural)]
pub enum FateFact {
    Same,
    Different,
    Free,
    InTheWay,
    Tombed,
    TombFailed,
    /// The info was unlinked, or could not be; it dangles then.
    Unlinked,
}

/// One step in deleting one entry.
pub open spec fn fated(d: Doomed, at: Fate, f: FateFact) -> Fate {
    match (at, f) {
        (Fate::Recheck, FateFact::Same) => if d is Dangling {
            Fate::Unlink
        } else {
            Fate::Mounts
        },
        (Fate::Recheck, FateFact::Different) => if d is Dangling {
            Fate::Resolved
        } else {
            Fate::Stays(Stay::Changed)
        },
        (Fate::Mounts, FateFact::Free) => Fate::Tomb,
        (Fate::Mounts, FateFact::InTheWay) => Fate::Stays(Stay::Mount),
        (Fate::Tomb, FateFact::Tombed) => if d == (Doomed::Orphan { info: false }) {
            Fate::Deleted
        } else {
            Fate::Unlink
        },
        (Fate::Tomb, FateFact::TombFailed) => Fate::Stays(Stay::Io),
        (Fate::Unlink, FateFact::Unlinked) => Fate::Deleted,
        _ => at,
    }
}

/// Goes one step in deleting one entry.
pub fn delete_entry(d: Doomed, at: Fate, f: FateFact) -> (r: Fate)
    ensures
        r == fated(d, at, f),
{
    match (at, f) {
        (Fate::Recheck, FateFact::Same) => match d {
            Doomed::Dangling => Fate::Unlink,
            _ => Fate::Mounts,
        },
        (Fate::Recheck, FateFact::Different) => match d {
            Doomed::Dangling => Fate::Resolved,
            _ => Fate::Stays(Stay::Changed),
        },
        (Fate::Mounts, FateFact::Free) => Fate::Tomb,
        (Fate::Mounts, FateFact::InTheWay) => Fate::Stays(Stay::Mount),
        (Fate::Tomb, FateFact::Tombed) => match d {
            Doomed::Orphan { info } => {
                if info {
                    Fate::Unlink
                } else {
                    Fate::Deleted
                }
            },
            _ => Fate::Unlink,
        },
        (Fate::Tomb, FateFact::TombFailed) => Fate::Stays(Stay::Io),
        (Fate::Unlink, FateFact::Unlinked) => Fate::Deleted,
        _ => at,
    }
}

/// The deletion of one entry after a course of reports.
pub open spec fn fate_run(d: Doomed, facts: Seq<FateFact>) -> Fate
    decreases facts.len(),
{
    if facts.len() == 0 {
        Fate::Recheck
    } else {
        fated(d, fate_run(d, facts.drop_last()), facts.last())
    }
}

/// Whatever the system reports: an entry leaves `files/` only after it was
/// found unchanged and free of mounts, and the info of an entry is unlinked only
/// after the entry has left; a dangling info only after its entry was found
/// missing.
pub proof fn info_goes_after_its_entry(d: Doomed, facts: Seq<FateFact>)
    ensures
        match fate_run(d, facts) {
            Fate::Recheck => true,
            Fate::Mounts => d !is Dangling && facts.contains(FateFact::Same),
            Fate::Tomb => d !is Dangling && facts.contains(FateFact::Same) && facts.contains(
                FateFact::Free,
            ),
            Fate::Unlink => facts.contains(FateFact::Same) && (d is Dangling || (facts.contains(
                FateFact::Free,
            ) && facts.contains(FateFact::Tombed))),
            Fate::Deleted => facts.contains(FateFact::Same) && (d is Dangling || (facts.contains(
                FateFact::Free,
            ) && facts.contains(FateFact::Tombed))),
            Fate::Stays(_) => d !is Dangling,
            Fate::Resolved => d is Dangling,
        },
    decreases facts.len(),
{
    if facts.len() > 0 {
        let front = facts.drop_last();
        info_goes_after_its_entry(d, front);
        assert forall|x: FateFact| front.contains(x) implies facts.contains(x) by {
            let i = choose|i: int| 0 <= i < front.len() && front[i] == x;
            assert(facts[i] == x);
        }
        assert(facts[facts.len() - 1] == facts.last());
        assert(facts.contains(facts.last()));
    }
}

proof fn fate_goes_on(d: Doomed, facts: Seq<FateFact>, f: FateFact)
    ensures
        fate_run(d, facts.push(f)) == fated(d, fate_run(d, facts), f),
{
    assert(facts.push(f).drop_last() =~= facts);
}

/// What is unchanged and free of mounts is deleted, with its info where it has
/// one; a dangling info goes at once. What changed stays, and says so, and so does
/// what a mount or the system holds back; an info that no longer dangles is left
/// in silence.
pub proof fn what_is_unchanged_is_deleted(d: Doomed, text: Seq<char>)
    ensures
        match d {
            Doomed::Dangling => {
                &&& fate_run(d, seq![FateFact::Same]) == Fate::Unlink
                &&& fate_run(d, seq![FateFact::Same, FateFact::Unlinked]) == Fate::Deleted
                &&& fate_run(d, seq![FateFact::Different]) == Fate::Resolved
            },
            _ => {
                let tombed = seq![FateFact::Same, FateFact::Free, FateFact::Tombed];
                &&& fate_run(d, seq![FateFact::Same]) == Fate::Mounts
                &&& fate_run(d, seq![FateFact::Same, FateFact::Free]) == Fate::Tomb
                &&& d == (Doomed::Orphan { info: false }) ==> fate_run(d, tombed) == Fate::Deleted
                &&& d != (Doomed::Orphan { info: false }) ==> fate_run(d, tombed) == Fate::Unlink
                    && fate_run(d, tombed.push(FateFact::Unlinked)) == Fate::Deleted
                &&& fate_run(d, seq![FateFact::Different]) == Fate::Stays(Stay::Changed)
                &&& fate_run(d, seq![FateFact::Same, FateFact::InTheWay]) == Fate::Stays(
                    Stay::Mount,
                )
                &&& fate_run(d, seq![FateFact::Same, FateFact::Free, FateFact::TombFailed])
                    == Fate::Stays(Stay::Io)
            },
        },
        stay_text(Stay::Changed, text) == "changed since it was listed"@,
        stay_text(Stay::Mount, text) == text,
        stay_text(Stay::Io, text) == text,
{
    let none = Seq::<FateFact>::empty();
    let s1 = none.push(FateFact::Same);
    let s2 = s1.push(FateFact::Free);
    let s3 = s2.push(FateFact::Tombed);
    assert(seq![FateFact::Same] =~= s1);
    assert(seq![FateFact::Same, FateFact::Free] =~= s2);
    assert(seq![FateFact::Same, FateFact::Free, FateFact::Tombed] =~= s3);
    assert(seq![FateFact::Same, FateFact::Unlinked] =~= s1.push(FateFact::Unlinked));
    assert(seq![FateFact::Different] =~= none.push(FateFact::Different));
    assert(seq![FateFact::Same, FateFact::InTheWay] =~= s1.push(FateFact::InTheWay));
    assert(seq![FateFact::Same, FateFact::Free, FateFact::TombFailed] =~= s2.push(
        FateFact::TombFailed,
    ));
    fate_goes_on(d, none, FateFact::Same);
    fate_goes_on(d, none, FateFact::Different);
    fate_goes_on(d, s1, FateFact::Free);
    fate_goes_on(d, s1, FateFact::Unlinked);
    fate_goes_on(d, s1, FateFact::InTheWay);
    fate_goes_on(d, s2, FateFact::Tombed);
    fate_goes_on(d, s2, FateFact::TombFailed);
    fate_goes_on(d, s3, FateFact::Unlinked);
}

/// Why an entry stays, in words; `text` is the mount in the way or what the
/// system said.
pub open spec fn stay_text(s: Stay, text: Seq<char>) -> Seq<char> {
    match s {
        Stay::Changed => "changed since it was listed"@,
        _ => text,
    }
}

/// What a deletion came to.
pub struct Report {
    pub deleted: u64,
    pub kept: Vec<(Vec<u8>, String)>,
}

impl Report {
    /// Nothing done yet.
    pub fn new() -> (r: Report)
        ensures
            r.deleted == 0,
            kept_views(r.kept@) == Seq::<(Seq<u8>, Seq<char>)>::empty(),
    {
        let r = Report { deleted: 0, kept: Vec::new() };
        assert(kept_views(r.kept@) =~= Seq::empty());
        r
    }

    /// Something stays: an entry, or the whole trash directory.
    pub fn keep(&mut self, name: Vec<u8>, why: String)
        ensures
            final(self).deleted == old(self).deleted,
            kept_views(final(self).kept@) == kept_views(old(self).kept@).push((name@, why@)),
    {
        let ghost was = kept_views(self.kept@);
        self.kept.push((name, why));
        assert(kept_views(self.kept@) =~= was.push((name@, why@)));
    }

    /// Puts down what came of one entry.
    pub fn tally(&mut self, name: Vec<u8>, fate: Fate, text: &str)
        requires
            old(self).deleted < u64::MAX,
        ensures
            final(self).deleted == old(self).deleted + (if fate is Deleted {
                1int
            } else {
                0
            }),
            kept_views(final(self).kept@) == (match fate {
                Fate::Stays(s) => kept_views(old(self).kept@).push((name@, stay_text(s, text@))),
                _ => kept_views(old(self).kept@),
            }),
    {
        match fate {
            Fate::Deleted => {
                self.deleted = self.deleted + 1;
            },
            Fate::Stays(s) => {
                let why = match s {
                    Stay::Changed => "changed since it was listed".to_owned(),
                    _ => text.to_owned(),
                };
                self.keep(name, why);
            },
            _ => {},
        }
    }
}

// ---------------------------------------------------------------------------
// A batch
// ---------------------------------------------------------------------------

/// What a batch is about: whether anything is to be deleted, and whether the
/// staging directory is to be swept.
#[derive(Clone, Copy, PartialEq, Eq, Debug, Structural)]
pub struct BatchArgs {
    pub any: bool,
    pub sweep: bool,
}

/// Where a batch stands.
#[derive(Clone, Copy, PartialEq, Eq, Debug, Structural)]
pub enum Batch {
    /// Open the staging directory, creating it or only if it exists.
    Stage { create: bool },
    /// Take the exclusive lock.
    Lock,
    /// Delete the entries, one by one.
    Entries,
    /// Make what lies in the staging directory tombstones too.
    Sweep,
    /// Give up the lock.
    Unlock,
    /// Remove the tombstones.
    Clear,
    Done,
    Failed,
}

/// What came of a step of a batch.
#[derive(Clone, Copy, PartialEq, Eq, Debug, Structural)]
pub enum BatchFact {
    Done,
    /// There is no staging directory.
    Missing,
    Failed,
}

/// A batch at its start. With nothing to delete no staging directory is made:
/// a trash on a read-only mount must not fail for that.
pub open spec fn batch_begun(a: BatchArgs) -> Batch {
    if !a.any && !a.sweep {
        Batch::Done
    } else {
        Batch::Stage { create: a.any }
    }
}

/// One step of a batch.
pub open spec fn batched(a: BatchArgs, at: Batch, f: BatchFact) -> Batch {
    match (at, f) {
        (Batch::Stage { create }, BatchFact::Done) => Batch::Lock,
        (Batch::Stage { create }, BatchFact::Missing) => if create {
            Batch::Failed
        } else {
            Batch::Done
        },
        (Batch::Stage { create }, BatchFact::Failed) => Batch::Failed,
        (Batch::Lock, BatchFact::Done) => Batch::Entries,
        (Batch::Lock, BatchFact::Failed) => Batch::Failed,
        (Batch::Entries, BatchFact::Done) => if a.sweep {
            Batch::Sweep
        } else {
            Batch::Unlock
        },
        (Batch::Sweep, BatchFact::Done) => Batch::Unlock,
        (Batch::Unlock, BatchFact::Done) => Batch::Clear,
        (Batch::Clear, BatchFact::Done) => Batch::Done,
        _ => at,
    }
}

/// Starts a batch.
pub fn begin_batch(a: BatchArgs) -> (b: Batch)
    ensures
        b == batch_begun(a),
{
    if !a.any && !a.sweep {
        Batch::Done
    } else {
        Batch::Stage { create: a.any }
    }
}

/// Goes one step in a batch.
pub fn delete_batch(a: BatchArgs, at: Batch, f: BatchFact) -> (b: Batch)
    ensures
        b == batched(a, at, f),
{
    match (at, f) {
        (Batch::Stage { create: _ }, BatchFact::Done) => Batch::Lock,
        (Batch::Stage { create }, BatchFact::Missing) => {
            if create {
                Batch::Failed
            } else {
                Batch::Done
            }
        },
        (Batch::Stage { create: _ }, BatchFact::Failed) => Batch::Failed,
        (Batch::Lock, BatchFact::Done) => Batch::Entries,
        (Batch::Lock, BatchFact::Failed) => Batch::Failed,
        (Batch::Entries, BatchFact::Done) => {
            if a.sweep {
                Batch::Sweep
            } else {
                Batch::Unlock
            }
        },
        (Batch::Sweep, BatchFact::Done) => Batch::Unlock,
        (Batch::Unlock, BatchFact::Done) => Batch::Clear,
        (Batch::Clear, BatchFact::Done) => Batch::Done,
        _ => at,
    }
}

/// A batch after a course of reports, and whether the lock is held.
pub open spec fn batch_run(a: BatchArgs, facts: Seq<BatchFact>) -> (Batch, bool)
    decreases facts.len(),
{
    if facts.len() == 0 {
        (batch_begun(a), false)
    } else {
        let (at, held) = batch_run(a, facts.drop_last());
        let f = facts.last();
        (
            batched(a, at, f),
            if at is Lock && f is Done {
                true
            } else if at is Unlock && f is Done {
                false
            } else {
                held
            },
        )
    }
}

/// Whatever the system reports: entries are deleted and the staging directory
/// swept only under the lock, tombstones are removed only after it is given up,
/// and a batch without entries creates nothing.
pub proof fn lock_covers_the_renames_only(a: BatchArgs, facts: Seq<BatchFact>)
    ensures
        ({
            let (at, held) = batch_run(a, facts);
            &&& held == (at is Entries || at is Sweep || at is Unlock)
            &&& at matches Batch::Stage { create } ==> create == a.any
            &&& at is Sweep ==> a.sweep
        }),
    decreases facts.len(),
{
    if facts.len() > 0 {
        lock_covers_the_renames_only(a, facts.drop_last());
    }
}

proof fn batch_goes_on(a: BatchArgs, facts: Seq<BatchFact>, f: BatchFact)
    ensures
        batch_run(a, facts.push(f)).0 == batched(a, batch_run(a, facts).0, f),
{
    assert(facts.push(f).drop_last() =~= facts);
}

/// A batch that nothing disturbs goes through all its steps: the staging
/// directory, made only for something to delete, the lock, the entries, the sweep
/// where it is asked for, the unlocking and the clearing. With nothing to do it is
/// done at once, and so is a sweep where there is nothing to sweep.
pub proof fn an_undisturbed_batch_is_done(a: BatchArgs)
    ensures
        !a.any && !a.sweep ==> batch_run(a, seq![]).0 == Batch::Done,
        a.any || a.sweep ==> {
            let d = BatchFact::Done;
            &&& batch_run(a, seq![]).0 == (Batch::Stage { create: a.any })
            &&& batch_run(a, seq![d]).0 == Batch::Lock
            &&& batch_run(a, seq![d, d]).0 == Batch::Entries
            &&& a.sweep ==> batch_run(a, seq![d, d, d]).0 == Batch::Sweep && batch_run(
                a,
                seq![d, d, d, d],
            ).0 == Batch::Unlock && batch_run(a, seq![d, d, d, d, d]).0 == Batch::Clear && batch_run(
                a,
                seq![d, d, d, d, d, d],
            ).0 == Batch::Done
            &&& !a.sweep ==> batch_run(a, seq![d, d, d]).0 == Batch::Unlock && batch_run(
                a,
                seq![d, d, d, d],
            ).0 == Batch::Clear && batch_run(a, seq![d, d, d, d, d]).0 == Batch::Done
            &&& batch_run(a, seq![BatchFact::Missing]).0 == (if a.any {
                Batch::Failed
            } else {
                Batch::Done
            })
            &&& batch_run(a, seq![BatchFact::Failed]).0 == Batch::Failed
            &&& batch_run(a, seq![d, BatchFact::Failed]).0 == Batch::Failed
        },
{
    let d = BatchFact::Done;
    let s0 = Seq::<BatchFact>::empty();
    let s1 = s0.push(d);
    let s2 = s1.push(d);
    let s3 = s2.push(d);
    let s4 = s3.push(d);
    let s5 = s4.push(d);
    assert(seq![] =~= s0);
    assert(seq![d] =~= s1);
    assert(seq![d, d] =~= s2);
    assert(seq![d, d, d] =~= s3);
    assert(seq![d, d, d, d] =~= s4);
    assert(seq![d, d, d, d, d] =~= s5);
    assert(seq![d, d, d, d, d, d] =~= s5.push(d));
    assert(seq![BatchFact::Missing] =~= s0.push(BatchFact::Missing));
    assert(seq![BatchFact::Failed] =~= s0.push(BatchFact::Failed));
    assert(seq![d, BatchFact::Failed] =~= s1.push(BatchFact::Failed));
    batch_goes_on(a, s0, d);
    batch_goes_on(a, s1, d);
    batch_goes_on(a, s2, d);
    batch_goes_on(a, s3, d);
    batch_goes_on(a, s4, d);
    batch_goes_on(a, s5, d);
    batch_goes_on(a, s0, BatchFact::Missing);
    batch_goes_on(a, s0, BatchFact::Failed);
    batch_goes_on(a, s1, BatchFact::Failed);
}

/// Whether a name in the staging directory is a tombstone's; anything else there
/// is a box that was left behind.
pub fn is_tombstone(name: &[u8]) -> (r: bool)
    ensures
        r == has_prefix(name@, lit("del.")),
{
    strip_prefix(name, of("del.").as_slice()).is_some()
}

/// The staging directory is used only if it is ours and on the trash's own
/// mount.
pub fn staging(owner: u32, uid: u32, id: Ident, t: &Trash) -> (r: Result<(), &'static str>)
    ensures
        match r {
            Ok(()) => owner == uid && id.mnt == t.id.mnt,
            Err(e) => if owner != uid {
                e@ == ".rip-staging is not owned by the current user"@
            } else {
                id.mnt != t.id.mnt && e@ == ".rip-staging is not on the trash's own mount"@
            },
        },
{
    if owner != uid {
        Err(".rip-staging is not owned by the current user")
    } else if id.mnt != t.id.mnt {
        Err(".rip-staging is not on the trash's own mount")
    } else {
        Ok(())
    }
}

/// A topdir is used for a restore only if it is on the trash's own device.
pub fn open_top(id: Ident, t: &Trash) -> (r: Result<(), &'static str>)
    ensures
        match r {
            Ok(()) => id.dev == t.id.dev,
            Err(e) => id.dev != t.id.dev && e@ == "its topdir is on another subvolume"@,
        },
{
    if id.dev != t.id.dev {
        Err("its topdir is on another subvolume")
    } else {
        Ok(())
    }
}

/// The mode a directory needs before it can be renamed away: one of ours without
/// `u+w` gets it, for its `..` must be written. `None`: leave it.
pub fn owner_write(m: &Meta, uid: u32) -> (r: Option<u32>)
    ensures
        r == (if m.dir() && m.uid == uid && m.mode & 0o200 == 0 {
            Some(m.mode | 0o200)
        } else {
            None
        }),
{
    if m.is_dir() && m.uid == uid && m.mode & 0o200 == 0 {
        Some(m.mode | 0o200)
    } else {
        None
    }
}

// ---------------------------------------------------------------------------
// Discarding one's own entry
// ---------------------------------------------------------------------------

/// Why an entry could not be discarded.
#[derive(Clone, Copy, PartialEq, Eq, Debug, Structural)]
pub enum DiscardErr {
    Io,
    /// A mount is in the way.
    Mount,
    /// Something else has the name now; it was put back.
    Changed,
    /// Part of it could not be removed.
    Kept,
}

/// Where the discarding of an entry stands.
#[derive(Clone, Copy, PartialEq, Eq, Debug, Structural)]
pub enum Discard {
    /// Look whether a mount is in the way.
    Mounts,
    /// Open the staging directory.
    Stage,
    /// Rename the entry to a tombstone.
    Tomb,
    /// Look whether the tombstone is the entry that was meant.
    Identify,
    /// Rename the tombstone back, overwriting nothing.
    PutBack,
    /// Look whether the info is still the entry's own.
    Info,
    /// Unlink the info file.
    Unlink,
    /// Remove the tombstone.
    Clear,
    Done,
    Failed(DiscardErr),
}

/// What came of a step in discarding an entry.
#[derive(Clone, Copy, PartialEq, Eq, Debug, Structural)]
pub enum DiscardFact {
    Done,
    Failed,
    Free,
    InTheWay,
    Same,
    Different,
    Cleared { kept: usize },
}

/// One step in discarding an entry; `known` says whether it is known which
/// entry is meant.
pub open spec fn discarded(known: bool, at: Discard, f: DiscardFact) -> Discard {
    match (at, f) {
        (Discard::Mounts, DiscardFact::Free) => Discard::Stage,
        (Discard::Mounts, DiscardFact::InTheWay) => Discard::Failed(DiscardErr::Mount),
        (Discard::Stage, DiscardFact::Done) => Discard::Tomb,
        (Discard::Stage, DiscardFact::Failed) => Discard::Failed(DiscardErr::Io),
        (Discard::Tomb, DiscardFact::Done) => if known {
            Discard::Identify
        } else {
            Discard::Unlink
        },
        (Discard::Tomb, DiscardFact::Failed) => Discard::Failed(DiscardErr::Io),
        (Discard::Identify, DiscardFact::Same) => Discard::Info,
        (Discard::Identify, DiscardFact::Different) => Discard::PutBack,
        (Discard::PutBack, DiscardFact::Done) => Discard::Failed(DiscardErr::Changed),
        (Discard::PutBack, DiscardFact::Failed) => Discard::Failed(DiscardErr::Changed),
        (Discard::Info, DiscardFact::Same) => Discard::Unlink,
        (Discard::Info, DiscardFact::Different) => Discard::Clear,
        (Discard::Unlink, DiscardFact::Done) => Discard::Clear,
        (Discard::Clear, DiscardFact::Cleared { kept }) => if kept == 0 {
            Discard::Done
        } else {
            Discard::Failed(DiscardErr::Kept)
        },
        _ => at,
    }
}

/// Goes one step in discarding an entry that this process put into the trash or
/// has just brought back.
pub fn discard_verified(known: bool, at: Discard, f: DiscardFact) -> (d: Discard)
    ensures
        d == discarded(known, at, f),
{
    match (at, f) {
        (Discard::Mounts, DiscardFact::Free) => Discard::Stage,
        (Discard::Mounts, DiscardFact::InTheWay) => Discard::Failed(DiscardErr::Mount),
        (Discard::Stage, DiscardFact::Done) => Discard::Tomb,
        (Discard::Stage, DiscardFact::Failed) => Discard::Failed(DiscardErr::Io),
        (Discard::Tomb, DiscardFact::Done) => {
            if known {
                Discard::Identify
            } else {
                Discard::Unlink
            }
        },
        (Discard::Tomb, DiscardFact::Failed) => Discard::Failed(DiscardErr::Io),
        (Discard::Identify, DiscardFact::Same) => Discard::Info,
        (Discard::Identify, DiscardFact::Different) => Discard::PutBack,
        (Discard::PutBack, DiscardFact::Done) => Discard::Failed(DiscardErr::Changed),
        (Discard::PutBack, DiscardFact::Failed) => Discard::Failed(DiscardErr::Changed),
        (Discard::Info, DiscardFact::Same) => Discard::Unlink,
        (Discard::Info, DiscardFact::Different) => Discard::Clear,
        (Discard::Unlink, DiscardFact::Done) => Discard::Clear,
        (Discard::Clear, DiscardFact::Cleared { kept }) => {
            if kept == 0 {
                Discard::Done
            } else {
                Discard::Failed(DiscardErr::Kept)
            }
        },
        _ => at,
    }
}

/// The discarding of an entry after a course of reports: where it stands,
/// whether the tombstone was found to be the entry that was meant, and whether
/// the info was found to be its own.
pub open spec fn discard_run(known: bool, facts: Seq<DiscardFact>) -> (Discard, bool, bool)
    decreases facts.len(),
{
    if facts.len() == 0 {
        (Discard::Mounts, false, false)
    } else {
        let (at, it, its) = discard_run(known, facts.drop_last());
        let f = facts.last();
        (
            discarded(known, at, f),
            it || (at is Identify && f is Same),
            its || (at is Info && f is Same),
        )
    }
}

/// Whatever the system reports: where it is known which entry is meant, nothing
/// else is ever removed, and no info but its own is unlinked.
pub proof fn only_the_meant_entry_is_discarded(facts: Seq<DiscardFact>)
    ensures
        ({
            let (at, it, its) = discard_run(true, facts);
            &&& (at is Info || at is Clear || at is Done || at
                == Discard::Failed(DiscardErr::Kept)) ==> it
            &&& at is Unlink ==> it && its
        }),
    decreases facts.len(),
{
    if facts.len() > 0 {
        only_the_meant_entry_is_discarded(facts.drop_last());
    }
}

proof fn discard_goes_on(known: bool, facts: Seq<DiscardFact>, f: DiscardFact)
    ensures
        discard_run(known, facts.push(f)).0 == discarded(known, discard_run(known, facts).0, f),
{
    assert(facts.push(f).drop_last() =~= facts);
}

/// An entry that nothing disturbs is discarded: it is made a tombstone, found to
/// be the one that was meant where that is known, its own info unlinked, and the
/// tombstone removed. A foreign info is left; a foreign entry is put back; what
/// could not be removed whole is a failure.
pub proof fn an_undisturbed_entry_is_discarded(known: bool, kept: usize)
    ensures
        ({
            let tombed = seq![DiscardFact::Free, DiscardFact::Done, DiscardFact::Done];
            let cleared = DiscardFact::Cleared { kept };
            let end = if kept == 0 {
                Discard::Done
            } else {
                Discard::Failed(DiscardErr::Kept)
            };
            &&& discard_run(known, seq![]).0 == Discard::Mounts
            &&& discard_run(known, seq![DiscardFact::Free]).0 == Discard::Stage
            &&& discard_run(known, seq![DiscardFact::Free, DiscardFact::Done]).0 == Discard::Tomb
            &&& discard_run(known, seq![DiscardFact::InTheWay]).0 == Discard::Failed(
                DiscardErr::Mount,
            )
            &&& discard_run(known, seq![DiscardFact::Free, DiscardFact::Failed]).0
                == Discard::Failed(DiscardErr::Io)
            &&& discard_run(
                known,
                seq![DiscardFact::Free, DiscardFact::Done, DiscardFact::Failed],
            ).0 == Discard::Failed(DiscardErr::Io)
            &&& !known ==> discard_run(known, tombed).0 == Discard::Unlink && discard_run(
                known,
                tombed.push(DiscardFact::Done).push(cleared),
            ).0 == end
            &&& known ==> {
                let own = tombed.push(DiscardFact::Same);
                let other = tombed.push(DiscardFact::Different);
                &&& discard_run(known, tombed).0 == Discard::Identify
                &&& discard_run(known, own).0 == Discard::Info
                &&& discard_run(known, own.push(DiscardFact::Same)).0 == Discard::Unlink
                &&& discard_run(
                    known,
                    own.push(DiscardFact::Same).push(DiscardFact::Done).push(cleared),
                ).0 == end
                &&& discard_run(known, own.push(DiscardFact::Different).push(cleared)).0 == end
                &&& discard_run(known, other).0 == Discard::PutBack
                &&& discard_run(known, other.push(DiscardFact::Done)).0 == Discard::Failed(
                    DiscardErr::Changed,
                )
                &&& discard_run(known, other.push(DiscardFact::Failed)).0 == Discard::Failed(
                    DiscardErr::Changed,
                )
            }
        }),
{
    let none = Seq::<DiscardFact>::empty();
    let d = DiscardFact::Done;
    let s1 = none.push(DiscardFact::Free);
    let s2 = s1.push(d);
    let s3 = s2.push(d);
    let cleared = DiscardFact::Cleared { kept };
    assert(seq![] =~= none);
    assert(seq![DiscardFact::Free] =~= s1);
    assert(seq![DiscardFact::Free, DiscardFact::Done] =~= s2);
    assert(seq![DiscardFact::Free, DiscardFact::Done, DiscardFact::Done] =~= s3);
    assert(seq![DiscardFact::InTheWay] =~= none.push(DiscardFact::InTheWay));
    assert(seq![DiscardFact::Free, DiscardFact::Failed] =~= s1.push(DiscardFact::Failed));
    assert(seq![DiscardFact::Free, DiscardFact::Done, DiscardFact::Failed] =~= s2.push(
        DiscardFact::Failed,
    ));
    discard_goes_on(known, none, DiscardFact::Free);
    discard_goes_on(known, none, DiscardFact::InTheWay);
    discard_goes_on(known, s1, d);
    discard_goes_on(known, s1, DiscardFact::Failed);
    discard_goes_on(known, s2, d);
    discard_goes_on(known, s2, DiscardFact::Failed);
    discard_goes_on(known, s3, d);
    discard_goes_on(known, s3.push(d), cleared);
    let own = s3.push(DiscardFact::Same);
    let other = s3.push(DiscardFact::Different);
    discard_goes_on(known, s3, DiscardFact::Same);
    discard_goes_on(known, s3, DiscardFact::Different);
    discard_goes_on(known, own, DiscardFact::Same);
    discard_goes_on(known, own, DiscardFact::Different);
    discard_goes_on(known, own.push(DiscardFact::Same), d);
    discard_goes_on(known, own.push(DiscardFact::Same).push(d), cleared);
    discard_goes_on(known, own.push(DiscardFact::Different), cleared);
    discard_goes_on(known, other, d);
    discard_goes_on(known, other, DiscardFact::Failed);
}

/// Why an entry could not be discarded, in words.
pub open spec fn discard_text(e: DiscardErr, text: Seq<char>, kept: nat) -> Seq<char> {
    match e {
        DiscardErr::Io => text,
        DiscardErr::Mount => "cannot remove the trash copy: it "@ + text,
        DiscardErr::Changed => "the trash entry changed identity; leaving it in place"@,
        DiscardErr::Kept => "could not fully remove the discarded copy ("@ + decimal(kept)
            + " entries kept)"@,
    }
}

/// A discard that fails says so in words of its own: what was said of the copy is passed on, and
/// what could not be removed is counted.
pub proof fn a_failed_discard_is_explained(e: DiscardErr, text: Seq<char>, kept: nat)
    ensures
        e is Io ==> discard_text(e, text, kept) == text,
        e is Mount ==> discard_text(e, text, kept) == "cannot remove the trash copy: it "@ + text,
        e is Changed ==> discard_text(e, text, kept)
            == "the trash entry changed identity; leaving it in place"@,
        e is Kept ==> discard_text(e, text, kept) == "could not fully remove the discarded copy ("@
            + decimal(kept) + " entries kept)"@,
{
}

/// Says why an entry could not be discarded.
pub fn discard_error(e: DiscardErr, text: &str, kept: usize) -> (s: String)
    ensures
        s@ == discard_text(e, text@, kept as nat),
{
    let mut s = String::new();
    match e {
        DiscardErr::Io => {
            s.append(text);
        },
        DiscardErr::Mount => {
            s.append("cannot remove the trash copy: it ");
            s.append(text);
        },
        DiscardErr::Changed => {
            s.append("the trash entry changed identity; leaving it in place");
        },
        DiscardErr::Kept => {
            s.append("could not fully remove the discarded copy (");
            s.append(number(kept as u64).as_str());
            s.append(" entries kept)");
        },
    }
    s
}

} // verus!
