//! The way of trashed items back to where they were.
//!
//! The trash copy is only read, or renamed whole, until the item lies complete
//! at its place; where it had to be copied, the trash copy goes only when the
//! new one is on disk.
use vstd::prelude::*;
use vstd::string::*;

use crate::dates::{time_is_ordered, DateTime};
use crate::info::{candidate, candidate_of};
use crate::load::{Contents, ItemView};
use crate::paths::{begins_with, components, comps, rendered, under};
use crate::reserve::{candidates_have_room, NAMES};
use crate::restore::{
    batch_order, cannot, newest, parents_come_first, say_cannot, strictly_inside,
    undo_takes_the_newest, with_date, Deed,
};
use crate::text::{escape, escaped, human, human_text};

verus! {

// ---------------------------------------------------------------------------
// A batch, item by item
// ---------------------------------------------------------------------------

/// What came of one item.
#[derive(Clone, Copy, PartialEq, Eq, Debug, Structural)]
pub enum Outcome {
    Restored,
    Declined,
    Failed,
}

/// How far a batch has come: the items that were not restored, and whether all
/// went well.
#[derive(Debug)]
pub struct Progress {
    pub missing: Vec<usize>,
    pub ok: bool,
}

/// The first item not restored that the `i`th lies inside of.
pub open spec fn missing_parent(items: Seq<ItemView>, missing: Seq<usize>, i: int, k: int) -> Option<
    usize,
>
    decreases missing.len() - k,
{
    if k < 0 || k >= missing.len() {
        None
    } else if strictly_inside(items[i].original, items[missing[k] as int].original) {
        Some(missing[k])
    } else {
        missing_parent(items, missing, i, k + 1)
    }
}

/// What is said of an item whose parent was not restored.
pub open spec fn parent_missing_text(path: Seq<u8>, parent: Seq<u8>) -> Seq<char> {
    cannot(Deed::Restore, path) + "its parent "@ + escaped(parent)
        + " was not restored; it stays in the trash"@
}

/// An item that waits for its parent is told by both paths.
pub proof fn a_missing_parent_is_named(path: Seq<u8>, parent: Seq<u8>)
    ensures
        parent_missing_text(path, parent) == "cannot "@ + "restore"@ + " '"@ + escaped(path)
            + "': "@ + "its parent "@ + escaped(parent)
            + " was not restored; it stays in the trash"@,
{
}

impl Progress {
    /// Every item that was not restored is one of these.
    pub open spec fn within(self, items: Seq<ItemView>) -> bool {
        forall|k: int| 0 <= k < self.missing@.len() ==> #[trigger] self.missing@[k] < items.len()
    }

    /// Nothing done yet.
    pub fn new() -> (p: Progress)
        ensures
            p.missing@ == Seq::<usize>::empty(),
            p.ok,
    {
        Progress { missing: Vec::new(), ok: true }
    }

    /// Tells whether an item is to be skipped, because it lies inside one that
    /// was not restored, and what to say of it. Else a directory would be made
    /// up in the place of its real parent.
    pub fn skip(&mut self, c: &Contents, i: usize) -> (r: Option<String>)
        requires
            i < c@.items.len(),
            old(self).within(c@.items),
        ensures
            final(self).within(c@.items),
            match missing_parent(c@.items, old(self).missing@, i as int, 0) {
                None => r is None && *final(self) == *old(self),
                Some(m) => {
                    &&& r matches Some(s) && s@ == parent_missing_text(
                        c@.items[i as int].original,
                        c@.items[m as int].original,
                    )
                    &&& final(self).missing@ == old(self).missing@.push(i)
                    &&& !final(self).ok
                },
            },
    {
        let it = &c.items[i];
        assert(c@.items[i as int] == it@);
        let own = components(it.original.as_slice());
        let mut k: usize = 0;
        let mut found: Option<usize> = None;
        while k < self.missing.len() && found.is_none()
            invariant
                k <= self.missing.len(),
                *self == *old(self),
                self.within(c@.items),
                crate::bytes::views(own@) == comps(c@.items[i as int].original),
                match found {
                    None => missing_parent(c@.items, self.missing@, i as int, 0) == missing_parent(
                        c@.items,
                        self.missing@,
                        i as int,
                        k as int,
                    ),
                    Some(m) => missing_parent(c@.items, self.missing@, i as int, 0) == Some(m) && m
                        < c@.items.len(),
                },
            decreases self.missing.len() - k,
        {
            let m: usize = self.missing[k];
            assert(self.missing@[k as int] < c@.items.len());
            let other = &c.items[m];
            assert(c@.items[m as int] == other@);
            let theirs = components(other.original.as_slice());
            if begins_with(own.as_slice(), theirs.as_slice()) && own.len() > theirs.len() {
                found = Some(m);
            }
            k = k + 1;
        }
        match found {
            None => None,
            Some(m) => {
                let parent = &c.items[m];
                assert(c@.items[m as int] == parent@);
                let mut s = say_cannot(Deed::Restore, it.original.as_slice());
                s.append("its parent ");
                s.append(escape(parent.original.as_slice()).as_str());
                s.append(" was not restored; it stays in the trash");
                let ghost was = self.missing@;
                self.missing.push(i);
                self.ok = false;
                assert(self.missing@ == was.push(i));
                Some(s)
            },
        }
    }

    /// Takes in what came of an item. A `no` is no failure, but the item is
    /// missing all the same.
    pub fn note(&mut self, i: usize, o: Outcome)
        ensures
            final(self).missing@ == (if o is Restored {
                old(self).missing@
            } else {
                old(self).missing@.push(i)
            }),
            final(self).ok == (old(self).ok && !(o is Failed)),
    {
        match o {
            Outcome::Restored => {},
            Outcome::Declined => {
                self.missing.push(i);
            },
            Outcome::Failed => {
                self.missing.push(i);
                self.ok = false;
            },
        }
    }
}

/// A batch after its first `n` items, where trying the `k`th comes out as
/// `outs[k]`: which were restored, which were not, and whether all went well.
pub open spec fn batch_result(
    items: Seq<ItemView>,
    batch: Seq<usize>,
    outs: Seq<Outcome>,
    n: int,
) -> (Seq<usize>, Seq<usize>, bool)
    decreases n,
{
    if n <= 0 {
        (Seq::empty(), Seq::empty(), true)
    } else {
        let (done, missing, ok) = batch_result(items, batch, outs, n - 1);
        let i = batch[n - 1];
        if missing_parent(items, missing, i as int, 0) is Some {
            (done, missing.push(i), false)
        } else {
            match outs[n - 1] {
                Outcome::Restored => (done.push(i), missing, ok),
                Outcome::Declined => (done, missing.push(i), ok),
                Outcome::Failed => (done, missing.push(i), false),
            }
        }
    }
}

proof fn no_missing_parent(items: Seq<ItemView>, missing: Seq<usize>, i: int, k: int, j: int)
    requires
        0 <= k <= j < missing.len(),
        missing_parent(items, missing, i, k) is None,
    ensures
        !strictly_inside(items[i].original, items[missing[j] as int].original),
    decreases missing.len() - k,
{
    if k < j {
        no_missing_parent(items, missing, i, k + 1, j);
    }
}

proof fn results_are_earlier(
    items: Seq<ItemView>,
    batch: Seq<usize>,
    outs: Seq<Outcome>,
    n: int,
)
    requires
        0 <= n <= batch.len(),
    ensures
        ({
            let (done, missing, ok) = batch_result(items, batch, outs, n);
            &&& forall|a: int|
                0 <= a < done.len() ==> exists|x: int|
                    0 <= x < n && batch[x] == #[trigger] done[a]
            &&& forall|b: int|
                0 <= b < missing.len() ==> exists|y: int|
                    0 <= y < n && batch[y] == #[trigger] missing[b]
        }),
    decreases n,
{
    if n > 0 {
        results_are_earlier(items, batch, outs, n - 1);
        let (d0, m0, k0) = batch_result(items, batch, outs, n - 1);
        let (done, missing, ok) = batch_result(items, batch, outs, n);
        assert forall|a: int| 0 <= a < done.len() implies exists|x: int|
            0 <= x < n && batch[x] == #[trigger] done[a] by {
            if a < d0.len() {
                assert(done[a] == d0[a]);
                let x = choose|x: int| 0 <= x < n - 1 && batch[x] == d0[a];
                assert(batch[x] == done[a]);
            } else {
                assert(batch[n - 1] == done[a]);
            }
        }
        assert forall|b: int| 0 <= b < missing.len() implies exists|y: int|
            0 <= y < n && batch[y] == #[trigger] missing[b] by {
            if b < m0.len() {
                assert(missing[b] == m0[b]);
                let y = choose|y: int| 0 <= y < n - 1 && batch[y] == m0[b];
                assert(batch[y] == missing[b]);
            } else {
                assert(batch[n - 1] == missing[b]);
            }
        }
    }
}

/// In a batch with parents first, nothing is restored inside of a directory
/// that itself was not restored, whatever comes of the single items.
pub proof fn nothing_goes_into_a_missing_parent(
    items: Seq<ItemView>,
    p: Seq<usize>,
    outs: Seq<Outcome>,
    n: int,
    a: int,
    b: int,
)
    requires
        forall|i: int| 0 <= i < items.len() ==> comps((#[trigger] items[i]).original).len()
            <= usize::MAX,
        forall|k: int| 0 <= k < p.len() ==> #[trigger] p[k] < items.len(),
        0 <= n <= batch_order(items, p).len(),
        0 <= a < batch_result(items, batch_order(items, p), outs, n).0.len(),
        0 <= b < batch_result(items, batch_order(items, p), outs, n).1.len(),
    ensures
        ({
            let (done, missing, ok) = batch_result(items, batch_order(items, p), outs, n);
            !strictly_inside(items[done[a] as int].original, items[missing[b] as int].original)
        }),
    decreases n,
{
    let batch = batch_order(items, p);
    parents_come_first(items, p);
    if n > 0 {
        let (d0, m0, k0) = batch_result(items, batch, outs, n - 1);
        let (done, missing, ok) = batch_result(items, batch, outs, n);
        results_are_earlier(items, batch, outs, n - 1);
        if a < d0.len() && b < m0.len() {
            assert(done[a] == d0[a] && missing[b] == m0[b]);
            nothing_goes_into_a_missing_parent(items, p, outs, n - 1, a, b);
        } else if a < d0.len() {
            assert(done[a] == d0[a] && missing[b] == batch[n - 1]);
            let x = choose|x: int| 0 <= x < n - 1 && batch[x] == d0[a];
            assert(!strictly_inside(
                items[batch[x] as int].original,
                items[batch[n - 1] as int].original,
            ));
        } else {
            assert(done[a] == batch[n - 1] && missing == m0);
            no_missing_parent(items, m0, batch[n - 1] as int, 0, b);
        }
    }
}

/// An item is skipped just where it lies inside one that was not restored, and
/// that one is named.
pub proof fn only_a_missing_parent_holds_back(items: Seq<ItemView>, missing: Seq<usize>, i: int)
    ensures
        missing_parent(items, missing, i, 0) is Some <==> exists|j: int|
            0 <= j < missing.len() && under(
                comps(items[i].original),
                comps(items[#[trigger] missing[j] as int].original),
            ) && comps(items[i].original).len() > comps(items[missing[j] as int].original).len(),
        missing_parent(items, missing, i, 0) matches Some(m) ==> missing.contains(m) && under(
            comps(items[i].original),
            comps(items[m as int].original),
        ) && comps(items[i].original).len() > comps(items[m as int].original).len(),
{
    missing_parent_is_one(items, missing, i, 0);
    if missing_parent(items, missing, i, 0) is None {
        assert forall|j: int| 0 <= j < missing.len() implies !(under(
            comps(items[i].original),
            comps(items[#[trigger] missing[j] as int].original),
        ) && comps(items[i].original).len() > comps(items[missing[j] as int].original).len()) by {
            no_missing_parent(items, missing, i, 0, j);
        }
    }
}

proof fn missing_parent_is_one(items: Seq<ItemView>, missing: Seq<usize>, i: int, k: int)
    requires
        0 <= k,
    ensures
        missing_parent(items, missing, i, k) matches Some(m) ==> exists|j: int|
            0 <= j < missing.len() && #[trigger] missing[j] == m && strictly_inside(
                items[i].original,
                items[missing[j] as int].original,
            ),
    decreases missing.len() - k,
{
    if k < missing.len() {
        if strictly_inside(items[i].original, items[missing[k] as int].original) {
            assert(missing[k] == missing[k]);
        } else {
            missing_parent_is_one(items, missing, i, k + 1);
        }
    }
}

// ---------------------------------------------------------------------------
// One item
// ---------------------------------------------------------------------------

/// What decides about an item's way back from the start.
#[derive(Clone, Copy, PartialEq, Eq, Debug, Structural)]
pub struct BackArgs {
    /// `--rename`: where something is at the place, take a name beside it.
    pub rename: bool,
    /// `-y`: ask nothing.
    pub yes: bool,
    /// What is larger than this is copied only with consent.
    pub threshold: u64,
}

/// Why an item was not restored.
#[derive(Clone, Copy, PartialEq, Eq, Debug, Structural)]
pub enum BackErr {
    Io,
    /// Something is at its place.
    Exists,
    /// Every name that is tried is in use.
    Spent,
    /// Consent was needed and nobody could be asked.
    CannotAsk,
    /// The entry or its info is not what was read any more.
    Changed,
    Copy,
    /// It is restored; the trash copy could not be removed.
    Leftover(u64),
}

/// How an item goes back.
#[derive(Clone, Copy, PartialEq, Eq, Debug, Structural)]
pub enum Way {
    Rename,
    Copy,
}

/// How the attempt ends, once what it made is taken back.
#[derive(Clone, Copy, PartialEq, Eq, Debug, Structural)]
pub enum End {
    Declined,
    Failed(BackErr),
}

/// Where an item stands on its way back. The number is that of the name at the
/// place.
#[derive(Clone, Copy, PartialEq, Eq, Debug, Structural)]
pub enum Back {
    /// Open the directory it goes to, and make what is missing of it.
    Parent,
    /// Look whether something has the name.
    Look(u64),
    /// Look for a mount that shows both the entry and the place.
    Route(u64),
    /// Measure the entry.
    Measure(u64),
    /// Ask whether to copy so much.
    Ask(u64),
    /// Take the shared lock of the trash directory.
    Lock(u64, Way),
    /// Look whether the entry and its info are what was read.
    Check(u64, Way),
    /// Look again, right before the rename.
    Again(u64),
    /// Rename the entry to the place, overwriting nothing.
    Rename(u64),
    /// Give the lock back: the rename would cross a filesystem boundary.
    Unlock(u64),
    /// Look whether the info is still the item's own.
    Info(u64),
    /// Unlink the info file.
    Unlink(u64),
    /// Make a fresh box beside the place.
    Box(u64),
    /// Look again, right before the copy.
    Recheck(u64),
    /// Copy the entry into the box.
    Copy(u64),
    /// Rename the copy to the place, overwriting nothing.
    Publish(u64),
    /// Remove the empty box, and have the copy written to disk.
    Sync(u64),
    /// Remove the trash copy, if it is still the one that was copied.
    Discard(u64),
    /// Remove the box.
    Drop(BackErr),
    /// Remove the directories that were made.
    Rollback(End),
    Done(u64),
    Declined,
    Failed(BackErr),
}

/// What came of a step on the way back.
#[derive(Clone, Copy, PartialEq, Eq, Debug, Structural)]
pub enum BackFact {
    Done,
    Failed,
    Present,
    Absent,
    /// A mount shows both.
    Through,
    /// None does.
    Apart,
    Size(u64),
    Yes,
    No,
    CannotAsk,
    Same,
    Different,
    /// The name was taken meanwhile.
    Exists,
    /// The rename would cross a filesystem boundary.
    Crossed,
}

/// The next name to look at, if there is to be one.
pub open spec fn look_on(a: BackArgs, k: u64) -> Back {
    if !a.rename {
        Back::Rollback(End::Failed(BackErr::Exists))
    } else if k + 1 < NAMES {
        Back::Look((k + 1) as u64)
    } else {
        Back::Rollback(End::Failed(BackErr::Spent))
    }
}

/// The next name to rename to, if there is to be one.
pub open spec fn rename_on(a: BackArgs, k: u64) -> Back {
    if !a.rename {
        Back::Rollback(End::Failed(BackErr::Exists))
    } else if k + 1 < NAMES {
        Back::Again((k + 1) as u64)
    } else {
        Back::Rollback(End::Failed(BackErr::Spent))
    }
}

/// The next name to publish under, if there is to be one.
pub open spec fn publish_on(a: BackArgs, k: u64) -> Back {
    if !a.rename {
        Back::Drop(BackErr::Exists)
    } else if k + 1 < NAMES {
        Back::Publish((k + 1) as u64)
    } else {
        Back::Drop(BackErr::Spent)
    }
}

/// One step on the way back.
pub open spec fn backed(a: BackArgs, at: Back, f: BackFact) -> Back {
    match (at, f) {
        (Back::Parent, BackFact::Done) => Back::Look(0),
        (Back::Parent, BackFact::Failed) => Back::Rollback(End::Failed(BackErr::Io)),
        (Back::Look(k), BackFact::Absent) => Back::Route(k),
        (Back::Look(k), BackFact::Present) => look_on(a, k),
        (Back::Look(k), BackFact::Failed) => Back::Rollback(End::Failed(BackErr::Io)),
        (Back::Route(k), BackFact::Through) => Back::Lock(k, Way::Rename),
        (Back::Route(k), BackFact::Apart) => Back::Measure(k),
        (Back::Route(k), BackFact::Failed) => Back::Rollback(End::Failed(BackErr::Io)),
        (Back::Measure(k), BackFact::Size(n)) => if !a.yes && n > a.threshold {
            Back::Ask(k)
        } else {
            Back::Lock(k, Way::Copy)
        },
        (Back::Measure(k), BackFact::Failed) => Back::Rollback(End::Failed(BackErr::Io)),
        (Back::Ask(k), BackFact::Yes) => Back::Lock(k, Way::Copy),
        (Back::Ask(k), BackFact::No) => Back::Rollback(End::Declined),
        (Back::Ask(k), BackFact::CannotAsk) => Back::Rollback(End::Failed(BackErr::CannotAsk)),
        (Back::Lock(k, w), BackFact::Done) => Back::Check(k, w),
        (Back::Lock(k, w), BackFact::Failed) => Back::Rollback(End::Failed(BackErr::Io)),
        (Back::Check(k, Way::Rename), BackFact::Same) => Back::Again(k),
        (Back::Check(k, Way::Copy), BackFact::Same) => Back::Box(k),
        (Back::Check(k, w), BackFact::Different) => Back::Rollback(End::Failed(BackErr::Changed)),
        (Back::Again(k), BackFact::Same) => Back::Rename(k),
        (Back::Again(k), BackFact::Different) => Back::Rollback(End::Failed(BackErr::Changed)),
        (Back::Rename(k), BackFact::Done) => Back::Info(k),
        (Back::Rename(k), BackFact::Exists) => rename_on(a, k),
        (Back::Rename(k), BackFact::Crossed) => Back::Unlock(k),
        (Back::Rename(k), BackFact::Failed) => Back::Rollback(End::Failed(BackErr::Io)),
        (Back::Unlock(k), BackFact::Done) => Back::Measure(k),
        (Back::Info(k), BackFact::Same) => Back::Unlink(k),
        (Back::Info(k), BackFact::Different) => Back::Done(k),
        (Back::Unlink(k), BackFact::Done) => Back::Done(k),
        (Back::Unlink(k), BackFact::Failed) => Back::Done(k),
        (Back::Box(k), BackFact::Done) => Back::Recheck(k),
        (Back::Box(k), BackFact::Failed) => Back::Rollback(End::Failed(BackErr::Io)),
        (Back::Recheck(k), BackFact::Same) => Back::Copy(k),
        (Back::Recheck(k), BackFact::Different) => Back::Drop(BackErr::Changed),
        (Back::Copy(k), BackFact::Done) => Back::Publish(k),
        (Back::Copy(k), BackFact::Failed) => Back::Drop(BackErr::Copy),
        (Back::Publish(k), BackFact::Done) => Back::Sync(k),
        (Back::Publish(k), BackFact::Exists) => publish_on(a, k),
        (Back::Publish(k), BackFact::Failed) => Back::Drop(BackErr::Io),
        (Back::Sync(k), BackFact::Done) => Back::Discard(k),
        (Back::Sync(k), BackFact::Failed) => Back::Failed(BackErr::Leftover(k)),
        (Back::Discard(k), BackFact::Done) => Back::Done(k),
        (Back::Discard(k), BackFact::Failed) => Back::Failed(BackErr::Leftover(k)),
        (Back::Drop(e), BackFact::Done) => Back::Rollback(End::Failed(e)),
        (Back::Rollback(End::Declined), BackFact::Done) => Back::Declined,
        (Back::Rollback(End::Failed(e)), BackFact::Done) => Back::Failed(e),
        _ => at,
    }
}

fn name_after(k: u64) -> (r: Option<u64>)
    ensures
        r == (if k + 1 < NAMES {
            Some((k + 1) as u64)
        } else {
            None
        }),
{
    if k < NAMES - 1 {
        Some(k + 1)
    } else {
        None
    }
}

/// Goes one step in bringing an item back.
pub fn restore_item(a: BackArgs, at: Back, f: BackFact) -> (b: Back)
    ensures
        b == backed(a, at, f),
{
    match (at, f) {
        (Back::Parent, BackFact::Done) => Back::Look(0),
        (Back::Parent, BackFact::Failed) => Back::Rollback(End::Failed(BackErr::Io)),
        (Back::Look(k), BackFact::Absent) => Back::Route(k),
        (Back::Look(k), BackFact::Present) => {
            if !a.rename {
                Back::Rollback(End::Failed(BackErr::Exists))
            } else {
                match name_after(k) {
                    Some(n) => Back::Look(n),
                    None => Back::Rollback(End::Failed(BackErr::Spent)),
                }
            }
        },
        (Back::Look(_), BackFact::Failed) => Back::Rollback(End::Failed(BackErr::Io)),
        (Back::Route(k), BackFact::Through) => Back::Lock(k, Way::Rename),
        (Back::Route(k), BackFact::Apart) => Back::Measure(k),
        (Back::Route(_), BackFact::Failed) => Back::Rollback(End::Failed(BackErr::Io)),
        (Back::Measure(k), BackFact::Size(n)) => {
            if !a.yes && n > a.threshold {
                Back::Ask(k)
            } else {
                Back::Lock(k, Way::Copy)
            }
        },
        (Back::Measure(_), BackFact::Failed) => Back::Rollback(End::Failed(BackErr::Io)),
        (Back::Ask(k), BackFact::Yes) => Back::Lock(k, Way::Copy),
        (Back::Ask(_), BackFact::No) => Back::Rollback(End::Declined),
        (Back::Ask(_), BackFact::CannotAsk) => Back::Rollback(End::Failed(BackErr::CannotAsk)),
        (Back::Lock(k, w), BackFact::Done) => Back::Check(k, w),
        (Back::Lock(_, _), BackFact::Failed) => Back::Rollback(End::Failed(BackErr::Io)),
        (Back::Check(k, Way::Rename), BackFact::Same) => Back::Again(k),
        (Back::Check(k, Way::Copy), BackFact::Same) => Back::Box(k),
        (Back::Check(_, _), BackFact::Different) => Back::Rollback(End::Failed(BackErr::Changed)),
        (Back::Again(k), BackFact::Same) => Back::Rename(k),
        (Back::Again(_), BackFact::Different) => Back::Rollback(End::Failed(BackErr::Changed)),
        (Back::Rename(k), BackFact::Done) => Back::Info(k),
        (Back::Rename(k), BackFact::Exists) => {
            if !a.rename {
                Back::Rollback(End::Failed(BackErr::Exists))
            } else {
                match name_after(k) {
                    Some(n) => Back::Again(n),
                    None => Back::Rollback(End::Failed(BackErr::Spent)),
                }
            }
        },
        (Back::Rename(k), BackFact::Crossed) => Back::Unlock(k),
        (Back::Rename(_), BackFact::Failed) => Back::Rollback(End::Failed(BackErr::Io)),
        (Back::Unlock(k), BackFact::Done) => Back::Measure(k),
        (Back::Info(k), BackFact::Same) => Back::Unlink(k),
        (Back::Info(k), BackFact::Different) => Back::Done(k),
        (Back::Unlink(k), BackFact::Done) => Back::Done(k),
        (Back::Unlink(k), BackFact::Failed) => Back::Done(k),
        (Back::Box(k), BackFact::Done) => Back::Recheck(k),
        (Back::Box(_), BackFact::Failed) => Back::Rollback(End::Failed(BackErr::Io)),
        (Back::Recheck(k), BackFact::Same) => Back::Copy(k),
        (Back::Recheck(_), BackFact::Different) => Back::Drop(BackErr::Changed),
        (Back::Copy(k), BackFact::Done) => Back::Publish(k),
        (Back::Copy(_), BackFact::Failed) => Back::Drop(BackErr::Copy),
        (Back::Publish(k), BackFact::Done) => Back::Sync(k),
        (Back::Publish(k), BackFact::Exists) => {
            if !a.rename {
                Back::Drop(BackErr::Exists)
            } else {
                match name_after(k) {
                    Some(n) => Back::Publish(n),
                    None => Back::Drop(BackErr::Spent),
                }
            }
        },
        (Back::Publish(_), BackFact::Failed) => Back::Drop(BackErr::Io),
        (Back::Sync(k), BackFact::Done) => Back::Discard(k),
        (Back::Sync(k), BackFact::Failed) => Back::Failed(BackErr::Leftover(k)),
        (Back::Discard(k), BackFact::Done) => Back::Done(k),
        (Back::Discard(k), BackFact::Failed) => Back::Failed(BackErr::Leftover(k)),
        (Back::Drop(e), BackFact::Done) => Back::Rollback(End::Failed(e)),
        (Back::Rollback(End::Declined), BackFact::Done) => Back::Declined,
        (Back::Rollback(End::Failed(e)), BackFact::Done) => Back::Failed(e),
        _ => at,
    }
}

// ---------------------------------------------------------------------------
// What an attempt leaves behind
// ---------------------------------------------------------------------------

/// What was done so far.
#[verifier::ext_equal]
pub struct BackWorld {
    /// Directories may have been made for the item.
    pub parents: bool,
    /// Consent is not needed, or was given.
    pub consent: bool,
    /// The shared lock is held.
    pub locked: bool,
    /// The last step found the entry and its info to be what was read.
    pub fresh: bool,
    /// A box is beside the place.
    pub boxed: bool,
    /// The copy is complete.
    pub whole: bool,
    /// The name under which the whole item lies at its place.
    pub dest: Option<u64>,
    /// What lies there is on disk.
    pub durable: bool,
    /// The entry has left `files/`.
    pub gone: bool,
    /// The info file was unlinked.
    pub unlinked: bool,
}

/// What a report means for the trash and the place.
pub open spec fn back_effect(a: BackArgs, w: BackWorld, at: Back, f: BackFact) -> BackWorld {
    let was = w;
    let w = BackWorld { fresh: false, ..w };
    match (at, f) {
        _ if backed(a, at, f) == at => was,
        (Back::Parent, _) => BackWorld { parents: true, ..w },
        (Back::Measure(k), BackFact::Size(n)) => BackWorld {
            consent: a.yes || n <= a.threshold,
            ..w
        },
        (Back::Ask(k), BackFact::Yes) => BackWorld { consent: true, ..w },
        (Back::Lock(k, y), BackFact::Done) => BackWorld { locked: true, ..w },
        (Back::Unlock(k), BackFact::Done) => BackWorld { locked: false, ..w },
        (Back::Check(k, y), BackFact::Same) => BackWorld { fresh: true, ..w },
        (Back::Again(k), BackFact::Same) => BackWorld { fresh: true, ..w },
        (Back::Recheck(k), BackFact::Same) => BackWorld { fresh: true, ..w },
        (Back::Rename(k), BackFact::Done) => BackWorld { dest: Some(k), gone: true, ..w },
        (Back::Unlink(k), BackFact::Done) => BackWorld { unlinked: true, ..w },
        (Back::Box(k), BackFact::Done) => BackWorld { boxed: true, ..w },
        (Back::Copy(k), BackFact::Done) => BackWorld { whole: true, ..w },
        (Back::Publish(k), BackFact::Done) => BackWorld { dest: Some(k), ..w },
        (Back::Sync(k), BackFact::Done) => BackWorld { boxed: false, durable: true, ..w },
        (Back::Sync(k), BackFact::Failed) => BackWorld { boxed: false, ..w },
        (Back::Discard(k), BackFact::Done) => BackWorld { gone: true, unlinked: true, ..w },
        (Back::Drop(e), BackFact::Done) => BackWorld { boxed: false, ..w },
        (Back::Rollback(e), BackFact::Done) => BackWorld { parents: false, locked: false, ..w },
        _ => w,
    }
}

/// An item after a course of reports.
pub open spec fn back_run(a: BackArgs, facts: Seq<BackFact>) -> (Back, BackWorld)
    decreases facts.len(),
{
    if facts.len() == 0 {
        (
            Back::Parent,
            BackWorld {
                parents: false,
                consent: false,
                locked: false,
                fresh: false,
                boxed: false,
                whole: false,
                dest: None,
                durable: false,
                gone: false,
                unlinked: false,
            },
        )
    } else {
        let (at, w) = back_run(a, facts.drop_last());
        (backed(a, at, facts.last()), back_effect(a, w, at, facts.last()))
    }
}

/// The item is in the trash as it was, and nothing is at its place.
pub open spec fn untouched(w: BackWorld) -> bool {
    w.dest is None && !w.gone && !w.unlinked
}

/// What holds at every point of the way back.
pub open spec fn back_sound(a: BackArgs, at: Back, w: BackWorld) -> bool {
    &&& (w.gone ==> w.dest is Some)
    &&& (w.unlinked ==> w.gone)
    &&& match at {
        Back::Parent | Back::Look(_) | Back::Route(_) | Back::Measure(_) | Back::Ask(_) => untouched(
            w,
        ) && !w.boxed && !w.locked,
        Back::Lock(_, y) => untouched(w) && !w.boxed && !w.locked && (y is Copy ==> w.consent),
        Back::Check(_, y) => untouched(w) && !w.boxed && w.locked && (y is Copy ==> w.consent),
        Back::Again(_) | Back::Unlock(_) => untouched(w) && !w.boxed && w.locked,
        Back::Rename(_) => untouched(w) && !w.boxed && w.locked && w.fresh,
        Back::Info(k) | Back::Unlink(k) => w.dest == Some(k) && w.gone && !w.unlinked && !w.boxed,
        Back::Box(_) => untouched(w) && !w.boxed && w.locked && w.consent,
        Back::Recheck(_) => untouched(w) && w.boxed && w.locked && w.consent,
        Back::Copy(_) => untouched(w) && w.boxed && w.locked && w.consent && w.fresh,
        Back::Publish(_) => untouched(w) && w.boxed && w.locked && w.consent && w.whole,
        Back::Sync(k) => w.dest == Some(k) && w.whole && !w.gone && w.consent,
        Back::Discard(k) => w.dest == Some(k) && w.whole && w.durable && !w.gone && !w.boxed
            && w.consent,
        Back::Drop(e) => untouched(w) && w.boxed && !(e is Leftover),
        Back::Rollback(End::Failed(e)) => untouched(w) && !w.boxed && !(e is Leftover),
        Back::Rollback(End::Declined) => untouched(w) && !w.boxed,
        Back::Done(k) => w.dest == Some(k) && w.gone && !w.boxed,
        Back::Declined => untouched(w) && !w.boxed && !w.parents,
        Back::Failed(BackErr::Leftover(k)) => w.dest == Some(k) && w.whole && !w.gone && !w.boxed,
        Back::Failed(_) => untouched(w) && !w.boxed && !w.parents,
    }
}

#[verifier::rlimit(40)]
proof fn step_is_sound(a: BackArgs, at: Back, w: BackWorld, f: BackFact)
    requires
        back_sound(a, at, w),
    ensures
        back_sound(a, backed(a, at, f), back_effect(a, w, at, f)),
{
}

/// Whatever the system reports: the entry leaves the trash only when the item
/// lies whole at its place, and where it was copied, on disk; its info goes only
/// after it; nothing is asked while the lock is held; right before it is renamed
/// or copied it was found to be what was selected; nothing large is copied
/// without consent; and an attempt that fails or is declined leaves the item in
/// the trash, no box and no new directories.
pub proof fn restore_loses_nothing(a: BackArgs, facts: Seq<BackFact>)
    ensures
        back_sound(a, back_run(a, facts).0, back_run(a, facts).1),
    decreases facts.len(),
{
    if facts.len() > 0 {
        restore_loses_nothing(a, facts.drop_last());
        let (at, w) = back_run(a, facts.drop_last());
        step_is_sound(a, at, w, facts.last());
    }
}

/// The number of the name that a step is about.
pub open spec fn name_at(at: Back) -> u64 {
    match at {
        Back::Look(k) => k,
        Back::Route(k) => k,
        Back::Measure(k) => k,
        Back::Ask(k) => k,
        Back::Lock(k, _) => k,
        Back::Check(k, _) => k,
        Back::Again(k) => k,
        Back::Rename(k) => k,
        Back::Unlock(k) => k,
        Back::Info(k) => k,
        Back::Unlink(k) => k,
        Back::Box(k) => k,
        Back::Recheck(k) => k,
        Back::Copy(k) => k,
        Back::Publish(k) => k,
        Back::Sync(k) => k,
        Back::Discard(k) => k,
        Back::Done(k) => k,
        Back::Failed(BackErr::Leftover(k)) => k,
        _ => 0,
    }
}

proof fn step_keeps_the_name(a: BackArgs, at: Back, f: BackFact)
    requires
        !a.rename,
        name_at(at) == 0,
        !(at matches Back::Drop(BackErr::Leftover(_))),
        !(at matches Back::Rollback(End::Failed(BackErr::Leftover(_)))),
    ensures
        name_at(backed(a, at, f)) == 0,
{
}

/// Without `--rename`, an item goes to its own name or nowhere.
pub proof fn without_rename_the_name_is_kept(a: BackArgs, facts: Seq<BackFact>)
    requires
        !a.rename,
    ensures
        back_run(a, facts).1.dest matches Some(k) ==> k == 0,
        name_at(back_run(a, facts).0) == 0,
    decreases facts.len(),
{
    if facts.len() > 0 {
        without_rename_the_name_is_kept(a, facts.drop_last());
        restore_loses_nothing(a, facts.drop_last());
        let (at, w) = back_run(a, facts.drop_last());
        step_keeps_the_name(a, at, facts.last());
    }
}

/// What an item came to, where its way back is at an end. One that is restored
/// while its trash copy stays counts as failed.
pub open spec fn outcome_of(at: Back) -> Option<Outcome> {
    match at {
        Back::Done(_) => Some(Outcome::Restored),
        Back::Declined => Some(Outcome::Declined),
        Back::Failed(_) => Some(Outcome::Failed),
        _ => None,
    }
}

/// Tells what an item came to, if its way back is at an end.
pub fn outcome(at: Back) -> (r: Option<Outcome>)
    ensures
        r == outcome_of(at),
{
    match at {
        Back::Done(_) => Some(Outcome::Restored),
        Back::Declined => Some(Outcome::Declined),
        Back::Failed(_) => Some(Outcome::Failed),
        _ => None,
    }
}

// ---------------------------------------------------------------------------
// Undoing a put
// ---------------------------------------------------------------------------

/// The reports on the way back of an item with which nothing interferes: its
/// place is free, it is what was read, and no step fails. `through`: some mount
/// shows both it and its place, so that it is renamed; else it is copied.
pub open spec fn undisturbed(through: bool, size: u64) -> Seq<BackFact> {
    if through {
        seq![
            BackFact::Done,
            BackFact::Absent,
            BackFact::Through,
            BackFact::Done,
            BackFact::Same,
            BackFact::Same,
            BackFact::Done,
            BackFact::Same,
            BackFact::Done,
        ]
    } else {
        seq![
            BackFact::Done,
            BackFact::Absent,
            BackFact::Apart,
            BackFact::Size(size),
            BackFact::Done,
            BackFact::Same,
            BackFact::Done,
            BackFact::Same,
            BackFact::Done,
            BackFact::Done,
            BackFact::Done,
            BackFact::Done,
        ]
    }
}

proof fn run_of_push(a: BackArgs, facts: Seq<BackFact>, f: BackFact)
    ensures
        back_run(a, facts.push(f)) == (
            backed(a, back_run(a, facts).0, f),
            back_effect(a, back_run(a, facts).1, back_run(a, facts).0, f),
        ),
{
    assert(facts.push(f).drop_last() =~= facts);
}

/// An item with which nothing interferes comes back to its own name: it lies
/// whole at its place, its entry has left the trash, and its info is gone.
pub proof fn an_undisturbed_item_comes_back(a: BackArgs, through: bool, size: u64)
    requires
        through || a.yes || size <= a.threshold,
    ensures
        ({
            let (at, w) = back_run(a, undisturbed(through, size));
            at == Back::Done(0) && w.dest == Some(0u64) && w.gone && w.unlinked && !w.boxed && (
            !through ==> w.whole && w.durable)
        }),
{
    let e = Seq::<BackFact>::empty();
    run_of_push(a, e, BackFact::Done);
    let f1 = e.push(BackFact::Done);
    run_of_push(a, f1, BackFact::Absent);
    let f2 = f1.push(BackFact::Absent);
    if through {
        run_of_push(a, f2, BackFact::Through);
        let f3 = f2.push(BackFact::Through);
        run_of_push(a, f3, BackFact::Done);
        let f4 = f3.push(BackFact::Done);
        run_of_push(a, f4, BackFact::Same);
        let f5 = f4.push(BackFact::Same);
        run_of_push(a, f5, BackFact::Same);
        let f6 = f5.push(BackFact::Same);
        run_of_push(a, f6, BackFact::Done);
        let f7 = f6.push(BackFact::Done);
        run_of_push(a, f7, BackFact::Same);
        let f8 = f7.push(BackFact::Same);
        run_of_push(a, f8, BackFact::Done);
        assert(undisturbed(through, size) =~= f8.push(BackFact::Done));
    } else {
        run_of_push(a, f2, BackFact::Apart);
        let f3 = f2.push(BackFact::Apart);
        run_of_push(a, f3, BackFact::Size(size));
        let f4 = f3.push(BackFact::Size(size));
        run_of_push(a, f4, BackFact::Done);
        let f5 = f4.push(BackFact::Done);
        run_of_push(a, f5, BackFact::Same);
        let f6 = f5.push(BackFact::Same);
        run_of_push(a, f6, BackFact::Done);
        let f7 = f6.push(BackFact::Done);
        run_of_push(a, f7, BackFact::Same);
        let f8 = f7.push(BackFact::Same);
        run_of_push(a, f8, BackFact::Done);
        let f9 = f8.push(BackFact::Done);
        run_of_push(a, f9, BackFact::Done);
        let f10 = f9.push(BackFact::Done);
        run_of_push(a, f10, BackFact::Done);
        let f11 = f10.push(BackFact::Done);
        run_of_push(a, f11, BackFact::Done);
        assert(undisturbed(through, size) =~= f11.push(BackFact::Done));
    }
}

/// Names in use are passed over in their order with `--rename`, up to a hundred
/// thousand; without it the first that is in use ends the attempt.
pub proof fn a_name_in_use_is_passed_over(a: BackArgs, n: nat)
    requires
        n <= 100_000,
    ensures
        ({
            let facts = seq![BackFact::Done] + Seq::new(n, |i: int| BackFact::Present);
            &&& n == 0 ==> back_run(a, facts).0 == Back::Look(0)
            &&& !a.rename && n > 0 ==> back_run(a, facts).0 == Back::Rollback(
                End::Failed(BackErr::Exists),
            )
            &&& a.rename && n < 100_000 ==> back_run(a, facts).0 == Back::Look(n as u64)
            &&& a.rename && n == 100_000 ==> back_run(a, facts).0 == Back::Rollback(
                End::Failed(BackErr::Spent),
            )
        }),
    decreases n,
{
    let facts = seq![BackFact::Done] + Seq::new(n, |i: int| BackFact::Present);
    if n == 0 {
        let none = Seq::<BackFact>::empty();
        run_of_push(a, none, BackFact::Done);
        assert(facts =~= none.push(BackFact::Done));
    } else {
        let m = (n - 1) as nat;
        a_name_in_use_is_passed_over(a, m);
        let front = seq![BackFact::Done] + Seq::new(m, |i: int| BackFact::Present);
        run_of_push(a, front, BackFact::Present);
        assert(facts =~= front.push(BackFact::Present));
    }
}

/// On the way back each report leads on in its one way. A free name leads to a
/// rename where some mount shows both, and else to a copy, with a question for a
/// large one unless `-y` is given; a rename that crosses a boundary leads to the
/// copy too. What changed is left. A name that is taken meanwhile leads to the
/// next with `--rename`, and else to the end. Before a failure or a refusal is
/// final, what was made is taken back. What is decided stays.
pub proof fn a_restore_goes_on_in_one_way(a: BackArgs, facts: Seq<BackFact>, f: BackFact)
    ensures
        ({
            let next = back_run(a, facts.push(f)).0;
            let failed = Back::Rollback(End::Failed(BackErr::Io));
            let changed = Back::Rollback(End::Failed(BackErr::Changed));
            match (back_run(a, facts).0, f) {
                (Back::Parent, BackFact::Failed) => next == failed,
                (Back::Look(k), BackFact::Absent) => next == Back::Route(k),
                (Back::Look(k), BackFact::Failed) => next == failed,
                (Back::Route(k), BackFact::Through) => next == Back::Lock(k, Way::Rename),
                (Back::Route(k), BackFact::Apart) => next == Back::Measure(k),
                (Back::Route(k), BackFact::Failed) => next == failed,
                (Back::Measure(k), BackFact::Size(n)) => next == (if a.yes || n <= a.threshold {
                    Back::Lock(k, Way::Copy)
                } else {
                    Back::Ask(k)
                }),
                (Back::Measure(k), BackFact::Failed) => next == failed,
                (Back::Ask(k), BackFact::Yes) => next == Back::Lock(k, Way::Copy),
                (Back::Ask(k), BackFact::No) => next == Back::Rollback(End::Declined),
                (Back::Ask(k), BackFact::CannotAsk) => next == Back::Rollback(
                    End::Failed(BackErr::CannotAsk),
                ),
                (Back::Lock(k, w), BackFact::Done) => next == Back::Check(k, w),
                (Back::Lock(k, w), BackFact::Failed) => next == failed,
                (Back::Check(k, w), BackFact::Same) => next == (if w is Rename {
                    Back::Again(k)
                } else {
                    Back::Box(k)
                }),
                (Back::Check(k, w), BackFact::Different) => next == changed,
                (Back::Again(k), BackFact::Same) => next == Back::Rename(k),
                (Back::Again(k), BackFact::Different) => next == changed,
                (Back::Rename(k), BackFact::Done) => next == Back::Info(k),
                (Back::Rename(k), BackFact::Exists) => next == (if !a.rename {
                    Back::Rollback(End::Failed(BackErr::Exists))
                } else if k < 99_999 {
                    Back::Again((k + 1) as u64)
                } else {
                    Back::Rollback(End::Failed(BackErr::Spent))
                }),
                (Back::Rename(k), BackFact::Crossed) => next == Back::Unlock(k),
                (Back::Rename(k), BackFact::Failed) => next == failed,
                (Back::Unlock(k), BackFact::Done) => next == Back::Measure(k),
                (Back::Info(k), BackFact::Same) => next == Back::Unlink(k),
                (Back::Info(k), BackFact::Different) => next == Back::Done(k),
                (Back::Unlink(k), BackFact::Done) => next == Back::Done(k),
                (Back::Unlink(k), BackFact::Failed) => next == Back::Done(k),
                (Back::Box(k), BackFact::Done) => next == Back::Recheck(k),
                (Back::Box(k), BackFact::Failed) => next == failed,
                (Back::Recheck(k), BackFact::Same) => next == Back::Copy(k),
                (Back::Recheck(k), BackFact::Different) => next == Back::Drop(BackErr::Changed),
                (Back::Copy(k), BackFact::Done) => next == Back::Publish(k),
                (Back::Copy(k), BackFact::Failed) => next == Back::Drop(BackErr::Copy),
                (Back::Publish(k), BackFact::Done) => next == Back::Sync(k),
                (Back::Publish(k), BackFact::Exists) => next == (if !a.rename {
                    Back::Drop(BackErr::Exists)
                } else if k < 99_999 {
                    Back::Publish((k + 1) as u64)
                } else {
                    Back::Drop(BackErr::Spent)
                }),
                (Back::Publish(k), BackFact::Failed) => next == Back::Drop(BackErr::Io),
                (Back::Sync(k), BackFact::Done) => next == Back::Discard(k),
                (Back::Sync(k), BackFact::Failed) => next == Back::Failed(BackErr::Leftover(k)),
                (Back::Discard(k), BackFact::Done) => next == Back::Done(k),
                (Back::Discard(k), BackFact::Failed) => next == Back::Failed(BackErr::Leftover(k)),
                (Back::Drop(e), BackFact::Done) => next == Back::Rollback(End::Failed(e)),
                (Back::Rollback(End::Declined), BackFact::Done) => next == Back::Declined,
                (Back::Rollback(End::Failed(e)), BackFact::Done) => next == Back::Failed(e),
                (Back::Done(k), _) => next == Back::Done(k),
                (Back::Declined, _) => next == Back::Declined,
                (Back::Failed(e), _) => next == Back::Failed(e),
                _ => true,
            }
        }),
{
    run_of_push(a, facts, f);
}

/// What an item came to is told just at the end of its way: restored where it is
/// done, declined where it was declined, and failed where it failed.
pub proof fn an_end_has_its_outcome(at: Back)
    ensures
        outcome_of(at) == Some(Outcome::Restored) <==> at is Done,
        outcome_of(at) == Some(Outcome::Declined) <==> at is Declined,
        outcome_of(at) == Some(Outcome::Failed) <==> at is Failed,
{
}

proof fn all_restored(items: Seq<ItemView>, batch: Seq<usize>, outs: Seq<Outcome>, n: int)
    requires
        0 <= n <= batch.len(),
        forall|k: int| 0 <= k < n ==> #[trigger] outs[k] == Outcome::Restored,
    ensures
        batch_result(items, batch, outs, n) == (batch.take(n), Seq::<usize>::empty(), true),
    decreases n,
{
    if n > 0 {
        all_restored(items, batch, outs, n - 1);
        assert(outs[n - 1] == Outcome::Restored);
        assert(batch.take(n - 1).push(batch[n - 1]) =~= batch.take(n));
    } else {
        assert(batch.take(0) =~= Seq::<usize>::empty());
    }
}

/// Undoing a put: `at` are the places among the items of what the last put
/// trashed, for the paths `paths`, all with one date, and every other item is
/// older. Where nothing interferes, `undo` selects just the items of that put,
/// each of them is restored, to the path that was trashed, its entry and its
/// info leave the trash, the command succeeds, and no older item is touched.
pub proof fn undo_brings_a_put_back(
    items: Seq<ItemView>,
    at: Seq<usize>,
    paths: Seq<Seq<u8>>,
    date: DateTime,
    a: BackArgs,
    ways: Seq<(bool, u64)>,
    outs: Seq<Outcome>,
)
    requires
        items.len() <= usize::MAX,
        forall|k: int| 0 <= k < items.len() ==> comps((#[trigger] items[k]).original).len()
            <= usize::MAX,
        paths.len() > 0,
        at.len() == paths.len(),
        forall|k: int|
            #![trigger at[k]]
            0 <= k < at.len() ==> at[k] < items.len() && items[at[k] as int].date == date
                && items[at[k] as int].original == rendered(comps(paths[k])),
        forall|i: usize|
            #![trigger at.contains(i)]
            i < items.len() && !at.contains(i) ==> items[i as int].date.earlier(date),
        forall|k: int|
            #![trigger ways[k]]
            0 <= k < outs.len() ==> (ways[k].0 || a.yes || ways[k].1 <= a.threshold) && Some(
                outs[k],
            ) == outcome_of(back_run(a, undisturbed(ways[k].0, ways[k].1)).0),
        outs.len() == batch_order(items, with_date(items, date, items.len() as int)).len(),
    ensures
        newest(items, items.len() as int) == Some(date),
        ({
            let batch = batch_order(items, with_date(items, date, items.len() as int));
            &&& forall|i: usize| #[trigger] batch.contains(i) <==> at.contains(i)
            &&& batch_result(items, batch, outs, batch.len() as int) == (
                batch,
                Seq::<usize>::empty(),
                true,
            )
            &&& forall|k: int|
                #![trigger paths[k]]
                0 <= k < paths.len() ==> exists|j: int|
                    0 <= j < batch.len() && items[#[trigger] batch[j] as int].original == rendered(
                        comps(paths[k]),
                    ) && outs[j] == Outcome::Restored
            &&& forall|k: int|
                #![trigger ways[k]]
                0 <= k < outs.len() ==> {
                    let w = back_run(a, undisturbed(ways[k].0, ways[k].1)).1;
                    w.dest == Some(0u64) && w.gone && w.unlinked
                }
        }),
{
    undo_takes_the_newest(items, at[0]);
    let d = newest(items, items.len() as int)->0;
    assert(at.contains(at[0]));
    assert(d == date) by {
        let j = choose|j: int| 0 <= j < items.len() && (#[trigger] items[j]).date == d;
        assert(!d.earlier(items[at[0] as int].date));
        if !at.contains(j as usize) {
            time_is_ordered(d, date, d);
        } else {
            let k = choose|k: int| 0 <= k < at.len() && at[k] == j as usize;
            assert(items[at[k] as int].date == date);
        }
    }
    let batch = batch_order(items, with_date(items, date, items.len() as int));
    assert forall|i: usize| #[trigger] batch.contains(i) <==> at.contains(i) by {
        undo_takes_the_newest(items, i);
        if at.contains(i) {
            let k = choose|k: int| 0 <= k < at.len() && at[k] == i;
            assert(items[at[k] as int].date == date);
        } else if i < items.len() {
            time_is_ordered(items[i as int].date, date, date);
        }
    }
    assert forall|k: int| #![trigger ways[k]] 0 <= k < outs.len() implies outs[k]
        == Outcome::Restored && ({
        let w = back_run(a, undisturbed(ways[k].0, ways[k].1)).1;
        w.dest == Some(0u64) && w.gone && w.unlinked
    }) by {
        an_undisturbed_item_comes_back(a, ways[k].0, ways[k].1);
    }
    assert forall|k: int| 0 <= k < outs.len() implies #[trigger] outs[k]
        == Outcome::Restored by {
        let w = ways[k];
    }
    all_restored(items, batch, outs, batch.len() as int);
    assert(batch.take(batch.len() as int) =~= batch);
    assert forall|k: int| #![trigger paths[k]] 0 <= k < paths.len() implies exists|j: int|
        0 <= j < batch.len() && items[#[trigger] batch[j] as int].original == rendered(
            comps(paths[k]),
        ) && outs[j] == Outcome::Restored by {
        assert(at.contains(at[k]));
        assert(batch.contains(at[k]));
        let j = choose|j: int| 0 <= j < batch.len() && batch[j] == at[k];
        assert(items[batch[j] as int].original == rendered(comps(paths[k])));
        assert(outs[j] == Outcome::Restored);
    }
}

// ---------------------------------------------------------------------------
// Names beside the place
// ---------------------------------------------------------------------------

/// The `k`th name to try at the place of an item called `base`.
pub fn beside_name(base: &[u8], k: u64) -> (name: Vec<u8>)
    requires
        k < NAMES,
    ensures
        name@ == candidate_of(base@, k as nat, 0),
{
    proof {
        candidates_have_room(k as nat);
    }
    candidate(base, k, 0)
}

// ---------------------------------------------------------------------------
// What is said
// ---------------------------------------------------------------------------

/// Why an item was not restored, in words. `at` is where its entry is in the
/// trash, `name` its own name, `io` what the system said.
pub open spec fn back_error_text(e: BackErr, at: Seq<u8>, dest: Seq<u8>, io: Seq<char>) -> Seq<
    char,
> {
    match e {
        BackErr::Io | BackErr::CannotAsk => io,
        BackErr::Exists => "its path exists; it stays at "@ + escaped(at)
            + "; --rename restores it beside as NAME~N"@,
        BackErr::Spent => "100000 names beside its path are in use"@,
        BackErr::Changed => "it changed in the trash meanwhile; left it there"@,
        BackErr::Copy => "copying it back failed: "@ + io + "; it stays in the trash"@,
        BackErr::Leftover(_) => "it is restored to "@ + escaped(dest)
            + ", but its trash copy was kept: "@ + io,
    }
}

/// A restore that fails says so in words of its own: where the item stays, where it went, and
/// what the system said.
pub proof fn a_failed_restore_is_explained(e: BackErr, at: Seq<u8>, dest: Seq<u8>, io: Seq<char>)
    ensures
        e is Io || e is CannotAsk ==> back_error_text(e, at, dest, io) == io,
        e is Exists ==> back_error_text(e, at, dest, io) == "its path exists; it stays at "@
            + escaped(at) + "; --rename restores it beside as NAME~N"@,
        e is Spent ==> back_error_text(e, at, dest, io)
            == "100000 names beside its path are in use"@,
        e is Changed ==> back_error_text(e, at, dest, io)
            == "it changed in the trash meanwhile; left it there"@,
        e is Copy ==> back_error_text(e, at, dest, io) == "copying it back failed: "@ + io
            + "; it stays in the trash"@,
        e is Leftover ==> back_error_text(e, at, dest, io) == "it is restored to "@ + escaped(dest)
            + ", but its trash copy was kept: "@ + io,
{
}

/// Says why an item was not restored.
pub fn back_error(e: BackErr, at: &[u8], dest: &[u8], io: &str) -> (s: String)
    ensures
        s@ == back_error_text(e, at@, dest@, io@),
{
    let mut s = String::new();
    match e {
        BackErr::Io | BackErr::CannotAsk => {
            s.append(io);
        },
        BackErr::Exists => {
            s.append("its path exists; it stays at ");
            s.append(escape(at).as_str());
            s.append("; --rename restores it beside as NAME~N");
        },
        BackErr::Spent => {
            s.append("100000 names beside its path are in use");
        },
        BackErr::Changed => {
            s.append("it changed in the trash meanwhile; left it there");
        },
        BackErr::Copy => {
            s.append("copying it back failed: ");
            s.append(io);
            s.append("; it stays in the trash");
        },
        BackErr::Leftover(_) => {
            s.append("it is restored to ");
            s.append(escape(dest).as_str());
            s.append(", but its trash copy was kept: ");
            s.append(io);
        },
    }
    s
}

/// What is said of an item that was not restored.
pub fn back_complaint(path: &[u8], why: &str) -> (s: String)
    ensures
        s@ == cannot(Deed::Restore, path@) + why@,
{
    let mut s = say_cannot(Deed::Restore, path);
    s.append(why);
    s
}

/// The question before a large copy back.
pub fn back_question(path: &[u8], size: u64) -> (s: String)
    ensures
        s@ == "'"@ + escaped(path@) + "' ("@ + human_text(size as nat)
            + ") is on another filesystem. Copy it back and delete the trash copy?"@,
{
    let mut s = String::from_str("'");
    s.append(escape(path).as_str());
    s.append("' (");
    s.append(human(size).as_str());
    s.append(") is on another filesystem. Copy it back and delete the trash copy?");
    s
}

} // verus!
