//! The copy into the home trash, where no trash can be reached by a rename.
//!
//! The source is only read until its complete copy lies in the trash under its
//! own name, with its info, and is on disk. Then the entries that the walk saw
//! and the copy holds are removed.
use vstd::prelude::*;
use vstd::string::*;

use crate::remove::{kept_views, removal_summary, summary_of, Removal};
use crate::reserve::{
    claim, claim_from, claimed, info_of, next_claim, start_claim, taken_names, Claim, ClaimFact,
};
use crate::text::{escape, escaped, human, human_text};

verus! {

/// What decides about a copy from the start.
#[derive(Clone, Copy, PartialEq, Eq, Debug, Structural)]
pub struct CopyArgs {
    /// The configuration refuses copies.
    pub refuse: bool,
    /// `-f`: ask nothing.
    pub force: bool,
    /// A tree larger than this is copied only with consent.
    pub threshold: u64,
}

/// Why a copy failed.
#[derive(Clone, Copy, PartialEq, Eq, Debug, Structural)]
pub enum CopyErr {
    Io,
    /// The configuration refuses copies.
    Refused,
    /// The tree could not be removed whole.
    Problem,
    /// Consent was needed and nobody could be asked.
    CannotAsk,
    Copy,
    Verify,
    /// Every name that is tried is in use.
    Spent,
    /// Nothing of the source was removed; the copy was taken back.
    Changed,
    /// Part of the source was kept; the trash holds the whole.
    Kept(u64),
}

/// What follows when a name is given up.
#[derive(Clone, Copy, PartialEq, Eq, Debug, Structural)]
pub enum Yield {
    Retry,
    Fail,
}

/// Where a copy stands. The number is that of the name in the trash.
#[derive(Clone, Copy, PartialEq, Eq, Debug, Structural)]
pub enum Copying {
    /// Walk the source.
    Walk,
    /// Ask whether to copy so much.
    Ask,
    /// Take the shared lock of the home trash.
    Lock,
    /// Open the staging directory.
    Stage,
    /// Make a fresh box there.
    Box,
    /// Copy the source into the box.
    Copy,
    /// Walk the copy and hold it against what was seen of the source.
    Verify,
    /// Take a name in the trash.
    Claim(Claim),
    /// Rename the copy to `files/NAME`, overwriting nothing.
    Publish(u64),
    /// Remove the box, with the name still held.
    DropHeld(u64),
    /// Unlink the info file of a name that is given up.
    Release(u64, Yield),
    /// Remove the box.
    Drop(CopyErr),
    /// Remove the empty box, and have the copy written to disk.
    Sync(u64),
    /// Remove the source, as far as the manifest vouches for it.
    Remove(u64),
    /// Take the copy back.
    Discard(u64),
    Done(u64),
    Declined,
    Failed(CopyErr),
}

/// What came of a step of a copy.
#[derive(Clone, Copy, PartialEq, Eq, Debug, Structural)]
pub enum CopyFact {
    Walked { sound: bool, size: u64 },
    WalkFailed,
    Yes,
    No,
    CannotAsk,
    Done,
    Failed,
    Claim(ClaimFact),
    /// The name was taken meanwhile.
    Exists,
    Removed { any: bool, kept: bool },
}

/// A copy at its start.
pub open spec fn copy_begun(a: CopyArgs) -> Copying {
    if a.refuse {
        Copying::Failed(CopyErr::Refused)
    } else {
        Copying::Walk
    }
}

/// A copy with its search for a name.
pub open spec fn naming(c: Claim) -> Copying {
    match c {
        Claim::Held(k) => Copying::Publish(k),
        Claim::Failed => Copying::Drop(CopyErr::Io),
        Claim::Spent => Copying::Drop(CopyErr::Spent),
        c => Copying::Claim(c),
    }
}

/// One step of a copy.
pub open spec fn copied(a: CopyArgs, at: Copying, f: CopyFact) -> Copying {
    match (at, f) {
        (Copying::Walk, CopyFact::WalkFailed) => Copying::Failed(CopyErr::Io),
        (Copying::Walk, CopyFact::Walked { sound, size }) => if !sound {
            Copying::Failed(CopyErr::Problem)
        } else if !a.force && size > a.threshold {
            Copying::Ask
        } else {
            Copying::Lock
        },
        (Copying::Ask, CopyFact::Yes) => Copying::Lock,
        (Copying::Ask, CopyFact::No) => Copying::Declined,
        (Copying::Ask, CopyFact::CannotAsk) => Copying::Failed(CopyErr::CannotAsk),
        (Copying::Lock, CopyFact::Done) => Copying::Stage,
        (Copying::Lock, CopyFact::Failed) => Copying::Failed(CopyErr::Io),
        (Copying::Stage, CopyFact::Done) => Copying::Box,
        (Copying::Stage, CopyFact::Failed) => Copying::Failed(CopyErr::Io),
        (Copying::Box, CopyFact::Done) => Copying::Copy,
        (Copying::Box, CopyFact::Failed) => Copying::Failed(CopyErr::Io),
        (Copying::Copy, CopyFact::Done) => Copying::Verify,
        (Copying::Copy, CopyFact::Failed) => Copying::Drop(CopyErr::Copy),
        (Copying::Verify, CopyFact::Done) => naming(claim_from(0)),
        (Copying::Verify, CopyFact::Failed) => Copying::Drop(CopyErr::Verify),
        (Copying::Claim(c), CopyFact::Claim(g)) => naming(claimed(c, g)),
        (Copying::Publish(k), CopyFact::Done) => Copying::Sync(k),
        (Copying::Publish(k), CopyFact::Exists) => Copying::Release(k, Yield::Retry),
        (Copying::Publish(k), CopyFact::Failed) => Copying::DropHeld(k),
        (Copying::DropHeld(k), CopyFact::Done) => Copying::Release(k, Yield::Fail),
        (Copying::Release(k, Yield::Retry), CopyFact::Done) => naming(claim_from(k + 1)),
        (Copying::Release(k, Yield::Fail), CopyFact::Done) => Copying::Failed(CopyErr::Io),
        (Copying::Drop(e), CopyFact::Done) => Copying::Failed(e),
        (Copying::Sync(k), CopyFact::Done) => Copying::Remove(k),
        (Copying::Sync(k), CopyFact::Failed) => Copying::Failed(CopyErr::Io),
        (Copying::Remove(k), CopyFact::Removed { any, kept }) => if !any {
            Copying::Discard(k)
        } else if kept {
            Copying::Failed(CopyErr::Kept(k))
        } else {
            Copying::Done(k)
        },
        (Copying::Discard(k), CopyFact::Done) => Copying::Failed(CopyErr::Changed),
        (Copying::Discard(k), CopyFact::Failed) => Copying::Failed(CopyErr::Io),
        _ => at,
    }
}

/// Starts a copy.
pub fn begin_copy(a: CopyArgs) -> (c: Copying)
    ensures
        c == copy_begun(a),
{
    if a.refuse {
        Copying::Failed(CopyErr::Refused)
    } else {
        Copying::Walk
    }
}

fn after_claim(c: Claim) -> (r: Copying)
    ensures
        r == naming(c),
{
    match c {
        Claim::Held(k) => Copying::Publish(k),
        Claim::Failed => Copying::Drop(CopyErr::Io),
        Claim::Spent => Copying::Drop(CopyErr::Spent),
        c => Copying::Claim(c),
    }
}

/// Goes one step in copying a file into the home trash.
pub fn copy_to_home(a: CopyArgs, at: Copying, f: CopyFact) -> (c: Copying)
    ensures
        c == copied(a, at, f),
{
    match (at, f) {
        (Copying::Walk, CopyFact::WalkFailed) => Copying::Failed(CopyErr::Io),
        (Copying::Walk, CopyFact::Walked { sound, size }) => {
            if !sound {
                Copying::Failed(CopyErr::Problem)
            } else if !a.force && size > a.threshold {
                Copying::Ask
            } else {
                Copying::Lock
            }
        },
        (Copying::Ask, CopyFact::Yes) => Copying::Lock,
        (Copying::Ask, CopyFact::No) => Copying::Declined,
        (Copying::Ask, CopyFact::CannotAsk) => Copying::Failed(CopyErr::CannotAsk),
        (Copying::Lock, CopyFact::Done) => Copying::Stage,
        (Copying::Lock, CopyFact::Failed) => Copying::Failed(CopyErr::Io),
        (Copying::Stage, CopyFact::Done) => Copying::Box,
        (Copying::Stage, CopyFact::Failed) => Copying::Failed(CopyErr::Io),
        (Copying::Box, CopyFact::Done) => Copying::Copy,
        (Copying::Box, CopyFact::Failed) => Copying::Failed(CopyErr::Io),
        (Copying::Copy, CopyFact::Done) => Copying::Verify,
        (Copying::Copy, CopyFact::Failed) => Copying::Drop(CopyErr::Copy),
        (Copying::Verify, CopyFact::Done) => after_claim(start_claim(0)),
        (Copying::Verify, CopyFact::Failed) => Copying::Drop(CopyErr::Verify),
        (Copying::Claim(c), CopyFact::Claim(g)) => after_claim(claim(c, g)),
        (Copying::Publish(k), CopyFact::Done) => Copying::Sync(k),
        (Copying::Publish(k), CopyFact::Exists) => Copying::Release(k, Yield::Retry),
        (Copying::Publish(k), CopyFact::Failed) => Copying::DropHeld(k),
        (Copying::DropHeld(k), CopyFact::Done) => Copying::Release(k, Yield::Fail),
        (Copying::Release(k, Yield::Retry), CopyFact::Done) => after_claim(next_claim(k)),
        (Copying::Release(_, Yield::Fail), CopyFact::Done) => Copying::Failed(CopyErr::Io),
        (Copying::Drop(e), CopyFact::Done) => Copying::Failed(e),
        (Copying::Sync(k), CopyFact::Done) => Copying::Remove(k),
        (Copying::Sync(_), CopyFact::Failed) => Copying::Failed(CopyErr::Io),
        (Copying::Remove(k), CopyFact::Removed { any, kept }) => {
            if !any {
                Copying::Discard(k)
            } else if kept {
                Copying::Failed(CopyErr::Kept(k))
            } else {
                Copying::Done(k)
            }
        },
        (Copying::Discard(_), CopyFact::Done) => Copying::Failed(CopyErr::Changed),
        (Copying::Discard(_), CopyFact::Failed) => Copying::Failed(CopyErr::Io),
        _ => at,
    }
}

// ---------------------------------------------------------------------------
// What a copy leaves behind
// ---------------------------------------------------------------------------

/// What a copy has done so far.
#[verifier::ext_equal]
pub struct CopyWorld {
    /// Consent is not needed, or was given.
    pub consent: bool,
    /// The lock of the home trash is held.
    pub locked: bool,
    /// A box of the copy's own is in the staging directory.
    pub boxed: bool,
    /// The copy is complete.
    pub whole: bool,
    /// The copy was held against what was seen of the source.
    pub verified: bool,
    /// The info file that is there because of the copy.
    pub info: Option<u64>,
    /// The name under which the copy lies in `files/`.
    pub entry: Option<u64>,
    /// The copy, its info and its name are on disk.
    pub durable: bool,
    /// The source may have lost something.
    pub touched: bool,
}

/// What the reports mean for the trash and the source.
pub open spec fn copy_effect(a: CopyArgs, w: CopyWorld, at: Copying, f: CopyFact) -> CopyWorld {
    match (at, f) {
        (Copying::Walk, CopyFact::Walked { sound, size }) => CopyWorld {
            consent: a.force || size <= a.threshold,
            ..w
        },
        (Copying::Ask, CopyFact::Yes) => CopyWorld { consent: true, ..w },
        (Copying::Lock, CopyFact::Done) => CopyWorld { locked: true, ..w },
        (Copying::Box, CopyFact::Done) => CopyWorld { boxed: true, ..w },
        (Copying::Copy, CopyFact::Done) => CopyWorld { whole: true, ..w },
        (Copying::Verify, CopyFact::Done) => CopyWorld { verified: true, ..w },
        (Copying::Claim(Claim::Create(k)), CopyFact::Claim(ClaimFact::Created)) => CopyWorld {
            info: Some(k),
            ..w
        },
        (Copying::Claim(Claim::Undo(k)), CopyFact::Claim(ClaimFact::Undone)) => CopyWorld {
            info: None,
            ..w
        },
        (Copying::Release(k, y), CopyFact::Done) => CopyWorld { info: None, ..w },
        (Copying::Publish(k), CopyFact::Done) => CopyWorld { entry: Some(k), ..w },
        (Copying::DropHeld(k), CopyFact::Done) => CopyWorld { boxed: false, ..w },
        (Copying::Drop(e), CopyFact::Done) => CopyWorld { boxed: false, ..w },
        (Copying::Sync(k), CopyFact::Done) => CopyWorld { boxed: false, durable: true, ..w },
        (Copying::Sync(k), CopyFact::Failed) => CopyWorld { boxed: false, ..w },
        (Copying::Remove(k), CopyFact::Removed { any, kept }) => CopyWorld {
            touched: w.touched || any,
            ..w
        },
        (Copying::Discard(k), CopyFact::Done) => CopyWorld { info: None, entry: None, ..w },
        _ => w,
    }
}

/// A copy after a course of reports.
pub open spec fn copy_run(a: CopyArgs, facts: Seq<CopyFact>) -> (Copying, CopyWorld)
    decreases facts.len(),
{
    if facts.len() == 0 {
        (
            copy_begun(a),
            CopyWorld {
                consent: false,
                locked: false,
                boxed: false,
                whole: false,
                verified: false,
                info: None,
                entry: None,
                durable: false,
                touched: false,
            },
        )
    } else {
        let (at, w) = copy_run(a, facts.drop_last());
        (copied(a, at, facts.last()), copy_effect(a, w, at, facts.last()))
    }
}

/// Nothing has been put into the trash, and the source is as it was.
pub open spec fn nothing_done(w: CopyWorld) -> bool {
    w.info is None && w.entry is None && !w.touched
}

/// The copy is complete and verified, in the trash under its name with its
/// info.
pub open spec fn in_place(w: CopyWorld, k: u64) -> bool {
    w.whole && w.verified && w.info == Some(k) && w.entry == Some(k)
}

/// The lock is held from the first write on, and not while a question is asked.
pub open spec fn copy_locked(at: Copying, w: CopyWorld) -> bool {
    match at {
        Copying::Walk | Copying::Ask | Copying::Lock | Copying::Declined => !w.locked,
        Copying::Failed(_) => true,
        _ => w.locked,
    }
}

/// What holds at every point of a copy.
pub open spec fn copy_sound(at: Copying, w: CopyWorld) -> bool {
    copy_locked(at, w) && match at {
        Copying::Walk | Copying::Ask | Copying::Declined => nothing_done(w) && !w.boxed,
        Copying::Lock | Copying::Stage | Copying::Box => nothing_done(w) && !w.boxed && w.consent,
        Copying::Copy => nothing_done(w) && w.boxed && w.consent,
        Copying::Verify => nothing_done(w) && w.boxed && w.consent && w.whole,
        Copying::Claim(c) => w.info == info_of(c) && w.entry is None && !w.touched && w.boxed
            && w.consent && w.whole && w.verified,
        Copying::Publish(k) => w.info == Some(k) && w.entry is None && !w.touched && w.boxed
            && w.consent && w.whole && w.verified,
        Copying::DropHeld(k) => w.info == Some(k) && w.entry is None && !w.touched && w.boxed,
        Copying::Release(k, Yield::Retry) => w.info == Some(k) && w.entry is None && !w.touched
            && w.boxed && w.consent && w.whole && w.verified,
        Copying::Release(k, Yield::Fail) => w.info == Some(k) && w.entry is None && !w.touched
            && !w.boxed,
        Copying::Drop(e) => nothing_done(w) && w.boxed && (e is Copy || e is Verify || e is Io
            || e is Spent),
        Copying::Sync(k) => in_place(w, k) && !w.touched && w.consent,
        Copying::Remove(k) => in_place(w, k) && w.durable && !w.touched && !w.boxed && w.consent,
        Copying::Discard(k) => in_place(w, k) && !w.touched && !w.boxed,
        Copying::Done(k) => in_place(w, k) && w.durable && w.touched && !w.boxed && w.consent,
        Copying::Failed(CopyErr::Kept(k)) => in_place(w, k) && w.durable && w.touched && !w.boxed
            && w.consent,
        Copying::Failed(CopyErr::Changed) => nothing_done(w) && !w.boxed,
        Copying::Failed(e) => !w.touched && !w.boxed && (w.entry is None ==> w.info is None),
    }
}

/// Whatever the system reports: no byte of the source is removed before a
/// complete, verified copy lies in the trash with its info, on disk; nothing is
/// written before the lock is held, and nothing asked while it is; nothing is
/// copied beyond the threshold without consent; a copy that fails before it is
/// in the trash leaves no box, no info and no entry; and a source of which
/// nothing could be removed leaves no copy either.
pub proof fn copy_comes_before_removal(a: CopyArgs, facts: Seq<CopyFact>)
    ensures
        copy_sound(copy_run(a, facts).0, copy_run(a, facts).1),
    decreases facts.len(),
{
    if facts.len() > 0 {
        copy_comes_before_removal(a, facts.drop_last());
    }
}

/// Where the configuration refuses copies, nothing at all happens.
pub proof fn refusal_does_nothing(a: CopyArgs, facts: Seq<CopyFact>)
    requires
        a.refuse,
    ensures
        copy_run(a, facts).0 == Copying::Failed(CopyErr::Refused),
        nothing_done(copy_run(a, facts).1) && !copy_run(a, facts).1.boxed,
    decreases facts.len(),
{
    if facts.len() > 0 {
        refusal_does_nothing(a, facts.drop_last());
    }
}

proof fn copy_goes_on(a: CopyArgs, facts: Seq<CopyFact>, f: CopyFact)
    ensures
        copy_run(a, facts.push(f)).0 == copied(a, copy_run(a, facts).0, f),
{
    assert(facts.push(f).drop_last() =~= facts);
}

/// The reports up to the search for a name, where nothing goes wrong: the walk
/// with its size, the consent where it is needed, and then the lock, the staging
/// directory, the box, the copy and its verification.
pub open spec fn copied_so_far(a: CopyArgs, size: u64) -> Seq<CopyFact> {
    let walked = seq![CopyFact::Walked { sound: true, size }];
    let agreed = if !a.force && size > a.threshold {
        walked.push(CopyFact::Yes)
    } else {
        walked
    };
    agreed + seq![CopyFact::Done, CopyFact::Done, CopyFact::Done, CopyFact::Done, CopyFact::Done]
}

/// Reports on names as reports on a copy.
pub open spec fn as_copies(v: Seq<ClaimFact>) -> Seq<CopyFact> {
    Seq::new(v.len(), |i: int| CopyFact::Claim(v[i]))
}

/// There is a question just before a copy larger than the threshold, without
/// `-f`; only a yes goes on from it.
pub proof fn only_a_large_copy_is_asked_about(a: CopyArgs, size: u64)
    requires
        !a.refuse,
    ensures
        ({
            let walked = seq![CopyFact::Walked { sound: true, size }];
            if !a.force && size > a.threshold {
                &&& copy_run(a, walked).0 == Copying::Ask
                &&& copy_run(a, walked.push(CopyFact::Yes)).0 == Copying::Lock
                &&& copy_run(a, walked.push(CopyFact::No)).0 == Copying::Declined
                &&& copy_run(a, walked.push(CopyFact::CannotAsk)).0 == Copying::Failed(
                    CopyErr::CannotAsk,
                )
            } else {
                copy_run(a, walked).0 == Copying::Lock
            }
        }),
        copy_run(a, seq![]).0 == Copying::Walk,
        copy_run(a, seq![CopyFact::Walked { sound: false, size }]).0 == Copying::Failed(
            CopyErr::Problem,
        ),
        copy_run(a, seq![CopyFact::WalkFailed]).0 == Copying::Failed(CopyErr::Io),
{
    let none = Seq::<CopyFact>::empty();
    let walked = seq![CopyFact::Walked { sound: true, size }];
    assert(seq![] =~= none);
    assert(walked =~= none.push(CopyFact::Walked { sound: true, size }));
    copy_goes_on(a, none, CopyFact::Walked { sound: true, size });
    assert(seq![CopyFact::Walked { sound: false, size }] =~= none.push(
        CopyFact::Walked { sound: false, size },
    ));
    copy_goes_on(a, none, CopyFact::Walked { sound: false, size });
    assert(seq![CopyFact::WalkFailed] =~= none.push(CopyFact::WalkFailed));
    copy_goes_on(a, none, CopyFact::WalkFailed);
    copy_goes_on(a, walked, CopyFact::Yes);
    copy_goes_on(a, walked, CopyFact::No);
    copy_goes_on(a, walked, CopyFact::CannotAsk);
}

proof fn copy_reaches_names(a: CopyArgs, size: u64)
    requires
        !a.refuse,
    ensures
        copy_run(a, copied_so_far(a, size)).0 == Copying::Claim(Claim::Stat(0)),
{
    only_a_large_copy_is_asked_about(a, size);
    let walked = seq![CopyFact::Walked { sound: true, size }];
    let agreed = if !a.force && size > a.threshold {
        walked.push(CopyFact::Yes)
    } else {
        walked
    };
    let f1 = agreed.push(CopyFact::Done);
    let f2 = f1.push(CopyFact::Done);
    let f3 = f2.push(CopyFact::Done);
    let f4 = f3.push(CopyFact::Done);
    copy_goes_on(a, agreed, CopyFact::Done);
    copy_goes_on(a, f1, CopyFact::Done);
    copy_goes_on(a, f2, CopyFact::Done);
    copy_goes_on(a, f3, CopyFact::Done);
    copy_goes_on(a, f4, CopyFact::Done);
    assert(copied_so_far(a, size) =~= f4.push(CopyFact::Done));
}

proof fn copy_passes_names(a: CopyArgs, size: u64, in_files: Seq<bool>)
    requires
        !a.refuse,
        in_files.len() < 100_000,
    ensures
        copy_run(a, copied_so_far(a, size) + as_copies(taken_names(in_files))).0 == Copying::Claim(
            Claim::Stat(in_files.len() as u64),
        ),
    decreases in_files.len(),
{
    let begun = copied_so_far(a, size);
    let passed = begun + as_copies(taken_names(in_files));
    if in_files.len() == 0 {
        copy_reaches_names(a, size);
        assert(passed =~= begun);
    } else {
        let front = in_files.drop_last();
        copy_passes_names(a, size, front);
        let before = begun + as_copies(taken_names(front));
        if in_files.last() {
            copy_goes_on(a, before, CopyFact::Claim(ClaimFact::Present));
            assert(passed =~= before.push(CopyFact::Claim(ClaimFact::Present)));
        } else {
            let mid = before.push(CopyFact::Claim(ClaimFact::Absent));
            copy_goes_on(a, before, CopyFact::Claim(ClaimFact::Absent));
            copy_goes_on(a, mid, CopyFact::Claim(ClaimFact::Exists));
            assert(passed =~= mid.push(CopyFact::Claim(ClaimFact::Exists)));
        }
    }
}

/// A copy that nothing disturbs is published under the first free name, written
/// to disk, and done once the source is gone. Of a source that was kept in part
/// that is said; where nothing of it was removed, the copy is taken back.
pub proof fn an_undisturbed_copy_is_done(a: CopyArgs, size: u64, in_files: Seq<bool>)
    requires
        !a.refuse,
        in_files.len() < 100_000,
    ensures
        ({
            let k = in_files.len() as u64;
            let held = (copied_so_far(a, size) + as_copies(taken_names(in_files))).push(
                CopyFact::Claim(ClaimFact::Absent),
            ).push(CopyFact::Claim(ClaimFact::Created)).push(CopyFact::Claim(ClaimFact::Written));
            let placed = held.push(CopyFact::Done).push(CopyFact::Done);
            &&& copy_run(a, held).0 == Copying::Publish(k)
            &&& copy_run(a, held.push(CopyFact::Done)).0 == Copying::Sync(k)
            &&& copy_run(a, placed).0 == Copying::Remove(k)
            &&& copy_run(a, placed.push(CopyFact::Removed { any: true, kept: false })).0
                == Copying::Done(k)
            &&& copy_run(a, placed.push(CopyFact::Removed { any: true, kept: true })).0
                == Copying::Failed(CopyErr::Kept(k))
            &&& forall|kept: bool|
                copy_run(
                    a,
                    placed.push(CopyFact::Removed { any: false, kept }).push(CopyFact::Done),
                ).0 == Copying::Failed(CopyErr::Changed)
            &&& copy_run(a, held.push(CopyFact::Exists).push(CopyFact::Done)).0 == (if k < 99_999 {
                Copying::Claim(Claim::Stat((k + 1) as u64))
            } else {
                Copying::Drop(CopyErr::Spent)
            })
        }),
{
    let passed = copied_so_far(a, size) + as_copies(taken_names(in_files));
    copy_passes_names(a, size, in_files);
    let absent = passed.push(CopyFact::Claim(ClaimFact::Absent));
    let created = absent.push(CopyFact::Claim(ClaimFact::Created));
    let held = created.push(CopyFact::Claim(ClaimFact::Written));
    copy_goes_on(a, passed, CopyFact::Claim(ClaimFact::Absent));
    copy_goes_on(a, absent, CopyFact::Claim(ClaimFact::Created));
    copy_goes_on(a, created, CopyFact::Claim(ClaimFact::Written));
    let published = held.push(CopyFact::Done);
    let placed = published.push(CopyFact::Done);
    copy_goes_on(a, held, CopyFact::Done);
    copy_goes_on(a, published, CopyFact::Done);
    copy_goes_on(a, placed, CopyFact::Removed { any: true, kept: false });
    copy_goes_on(a, placed, CopyFact::Removed { any: true, kept: true });
    assert forall|kept: bool|
        copy_run(
            a,
            placed.push(CopyFact::Removed { any: false, kept }).push(CopyFact::Done),
        ).0 == Copying::Failed(CopyErr::Changed) by {
        copy_goes_on(a, placed, CopyFact::Removed { any: false, kept });
        copy_goes_on(a, placed.push(CopyFact::Removed { any: false, kept }), CopyFact::Done);
    }
    copy_goes_on(a, held, CopyFact::Exists);
    copy_goes_on(a, held.push(CopyFact::Exists), CopyFact::Done);
}

/// A copy that a step fails ends with that step's fault, once the box is gone:
/// the source was not copied, or the copy not verified, or what the system said.
/// What is decided stays.
pub proof fn a_copy_fails_for_its_fault(a: CopyArgs, facts: Seq<CopyFact>, f: CopyFact)
    ensures
        ({
            let next = copy_run(a, facts.push(f)).0;
            match copy_run(a, facts).0 {
                Copying::Lock | Copying::Stage | Copying::Box | Copying::Sync(_) => f is Failed
                    ==> next == Copying::Failed(CopyErr::Io),
                Copying::Copy => f is Failed ==> next == Copying::Drop(CopyErr::Copy),
                Copying::Verify => f is Failed ==> next == Copying::Drop(CopyErr::Verify),
                Copying::Publish(k) => f is Failed ==> next == Copying::DropHeld(k),
                Copying::DropHeld(k) => f is Done ==> next == Copying::Release(k, Yield::Fail),
                Copying::Release(k, Yield::Fail) => f is Done ==> next == Copying::Failed(
                    CopyErr::Io,
                ),
                Copying::Drop(e) => f is Done ==> next == Copying::Failed(e),
                Copying::Discard(k) => f is Failed ==> next == Copying::Failed(CopyErr::Io),
                Copying::Done(k) => next == Copying::Done(k),
                Copying::Declined => next == Copying::Declined,
                Copying::Failed(e) => next == Copying::Failed(e),
                _ => true,
            }
        }),
{
    copy_goes_on(a, facts, f);
}

// ---------------------------------------------------------------------------
// What is said
// ---------------------------------------------------------------------------

/// What is known when a copy fails: why no trash could be reached, the
/// configuration file, what the walk found or the system said, the place of the
/// copy and what was kept of the source.
pub struct CopyTexts<'a> {
    pub why: &'a str,
    pub source: &'a [u8],
    pub io: &'a str,
    pub dest: &'a [u8],
    pub kept: &'a Removal,
}

/// Why a copy failed, in words.
pub open spec fn copy_error_text(
    e: CopyErr,
    why: Seq<char>,
    source: Seq<u8>,
    io: Seq<char>,
    dest: Seq<u8>,
    kept: Seq<(Seq<u8>, Seq<char>)>,
) -> Seq<char> {
    match e {
        CopyErr::Io | CopyErr::CannotAsk => io,
        CopyErr::Refused => "no usable trash on its filesystem ("@ + why
            + "); left it untouched (fallback = \"refuse\" in "@ + escaped(source) + ")"@,
        CopyErr::Problem => io + "; not copying it"@,
        CopyErr::Copy => "copying into the home trash failed: "@ + io + "; left it untouched"@,
        CopyErr::Verify => "could not verify the copy: "@ + io + "; left it untouched"@,
        CopyErr::Spent => "100000 trashed items already use this name"@,
        CopyErr::Changed => "it changed while it was copied; left it untouched ("@ + summary_of(
            kept,
        ) + ")"@,
        CopyErr::Kept(_) => "the trash holds a complete copy ("@ + escaped(dest)
            + "); these source entries were kept: "@ + summary_of(kept),
    }
}

/// A copy that fails says so in words of its own: why there was no trash to move to, what the
/// system said, where a whole copy lies, and which entries of the source were kept.
pub proof fn a_failed_copy_is_explained(
    e: CopyErr,
    why: Seq<char>,
    source: Seq<u8>,
    io: Seq<char>,
    dest: Seq<u8>,
    kept: Seq<(Seq<u8>, Seq<char>)>,
)
    ensures
        e is Io || e is CannotAsk ==> copy_error_text(e, why, source, io, dest, kept) == io,
        e is Refused ==> copy_error_text(e, why, source, io, dest, kept)
            == "no usable trash on its filesystem ("@ + why
            + "); left it untouched (fallback = \"refuse\" in "@ + escaped(source) + ")"@,
        e is Problem ==> copy_error_text(e, why, source, io, dest, kept) == io
            + "; not copying it"@,
        e is Copy ==> copy_error_text(e, why, source, io, dest, kept)
            == "copying into the home trash failed: "@ + io + "; left it untouched"@,
        e is Verify ==> copy_error_text(e, why, source, io, dest, kept)
            == "could not verify the copy: "@ + io + "; left it untouched"@,
        e is Spent ==> copy_error_text(e, why, source, io, dest, kept)
            == "100000 trashed items already use this name"@,
        e is Changed ==> copy_error_text(e, why, source, io, dest, kept)
            == "it changed while it was copied; left it untouched ("@ + summary_of(kept) + ")"@,
        e is Kept ==> copy_error_text(e, why, source, io, dest, kept)
            == "the trash holds a complete copy ("@ + escaped(dest)
            + "); these source entries were kept: "@ + summary_of(kept),
{
}

/// Says why a copy failed.
pub fn copy_error(e: CopyErr, t: &CopyTexts) -> (s: String)
    ensures
        s@ == copy_error_text(e, t.why@, t.source@, t.io@, t.dest@, kept_views(t.kept.kept@)),
{
    let mut s = String::new();
    match e {
        CopyErr::Io | CopyErr::CannotAsk => {
            s.append(t.io);
        },
        CopyErr::Refused => {
            s.append("no usable trash on its filesystem (");
            s.append(t.why);
            s.append("); left it untouched (fallback = \"refuse\" in ");
            s.append(escape(t.source).as_str());
            s.append(")");
        },
        CopyErr::Problem => {
            s.append(t.io);
            s.append("; not copying it");
        },
        CopyErr::Copy => {
            s.append("copying into the home trash failed: ");
            s.append(t.io);
            s.append("; left it untouched");
        },
        CopyErr::Verify => {
            s.append("could not verify the copy: ");
            s.append(t.io);
            s.append("; left it untouched");
        },
        CopyErr::Spent => {
            s.append("100000 trashed items already use this name");
        },
        CopyErr::Changed => {
            s.append("it changed while it was copied; left it untouched (");
            s.append(removal_summary(t.kept).as_str());
            s.append(")");
        },
        CopyErr::Kept(_) => {
            s.append("the trash holds a complete copy (");
            s.append(escape(t.dest).as_str());
            s.append("); these source entries were kept: ");
            s.append(removal_summary(t.kept).as_str());
        },
    }
    s
}

/// The question before a large copy.
pub fn copy_question(path: &[u8], size: u64, why: &str, home: &[u8]) -> (s: String)
    ensures
        s@ == "'"@ + escaped(path@) + "' ("@ + human_text(size as nat)
            + ") has no usable trash on its filesystem ("@ + why@ + "). Copy it into "@ + escaped(
            home@,
        ) + " and delete the original?"@,
{
    let mut s = String::from_str("'");
    s.append(escape(path).as_str());
    s.append("' (");
    s.append(human(size).as_str());
    s.append(") has no usable trash on its filesystem (");
    s.append(why);
    s.append("). Copy it into ");
    s.append(escape(home).as_str());
    s.append(" and delete the original?");
    s
}

/// What is said before a copy.
pub fn copy_notice(path: &[u8], size: u64, why: &str) -> (s: String)
    ensures
        s@ == "'"@ + escaped(path@) + "' has no usable trash on its filesystem ("@ + why@
            + "); copying "@ + human_text(size as nat) + " into the home trash"@,
{
    let mut s = String::from_str("'");
    s.append(escape(path).as_str());
    s.append("' has no usable trash on its filesystem (");
    s.append(why);
    s.append("); copying ");
    s.append(human(size).as_str());
    s.append(" into the home trash");
    s
}

} // verus!
