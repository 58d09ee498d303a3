//! Taking a name in a trash directory, and moving a file in under it.
//!
//! A name is taken by creating its info file. The info file is there before the
//! entry in `files/`, and goes again wherever the move does not come about.
use vstd::prelude::*;
use vstd::string::*;

use crate::info::{candidate, candidate_of, room, suffix_bytes};
use crate::text::decimal;

verus! {

/// How many names are tried for one item.
pub const NAMES: u64 = 100_000;

/// What a name's info file needs besides the name: `.trashinfo`.
pub const INFO_ROOM: usize = 10;

/// Where the search for a free name stands. The number says which candidate.
#[derive(Clone, Copy, PartialEq, Eq, Debug, Structural)]
pub enum Claim {
    /// Look whether `files/NAME` is there.
    Stat(u64),
    /// Create `info/NAME.trashinfo`, which must not exist.
    Create(u64),
    /// Write the new info file.
    Write(u64),
    /// Unlink the info file that could not be written.
    Undo(u64),
    /// The name is taken: its info file is there and complete.
    Held(u64),
    Failed,
    /// Every name that is tried is in use.
    Spent,
}

/// What the system said in the search for a free name.
#[derive(Clone, Copy, PartialEq, Eq, Debug, Structural)]
pub enum ClaimFact {
    Present,
    Absent,
    StatFailed,
    Created,
    Exists,
    CreateFailed,
    Written,
    WriteFailed,
    Undone,
}

/// The search from candidate `k` on.
pub open spec fn claim_from(k: int) -> Claim {
    if k < NAMES {
        Claim::Stat(k as u64)
    } else {
        Claim::Spent
    }
}

/// One step of the search.
pub open spec fn claimed(at: Claim, f: ClaimFact) -> Claim {
    match (at, f) {
        (Claim::Stat(k), ClaimFact::Present) => claim_from(k + 1),
        (Claim::Stat(k), ClaimFact::Absent) => Claim::Create(k),
        (Claim::Stat(k), ClaimFact::StatFailed) => Claim::Failed,
        (Claim::Create(k), ClaimFact::Created) => Claim::Write(k),
        (Claim::Create(k), ClaimFact::Exists) => claim_from(k + 1),
        (Claim::Create(k), ClaimFact::CreateFailed) => Claim::Failed,
        (Claim::Write(k), ClaimFact::Written) => Claim::Held(k),
        (Claim::Write(k), ClaimFact::WriteFailed) => Claim::Undo(k),
        (Claim::Undo(k), ClaimFact::Undone) => Claim::Failed,
        _ => at,
    }
}

/// Starts the search at candidate `k`.
pub fn start_claim(k: u64) -> (c: Claim)
    ensures
        c == claim_from(k as int),
{
    if k < NAMES {
        Claim::Stat(k)
    } else {
        Claim::Spent
    }
}

/// Starts the search after candidate `k`.
pub fn next_claim(k: u64) -> (c: Claim)
    ensures
        c == claim_from(k + 1),
{
    if k < NAMES - 1 {
        Claim::Stat(k + 1)
    } else {
        Claim::Spent
    }
}

/// Goes one step in the search.
pub fn claim(at: Claim, f: ClaimFact) -> (c: Claim)
    ensures
        c == claimed(at, f),
{
    match (at, f) {
        (Claim::Stat(k), ClaimFact::Present) => next_claim(k),
        (Claim::Stat(k), ClaimFact::Absent) => Claim::Create(k),
        (Claim::Stat(_), ClaimFact::StatFailed) => Claim::Failed,
        (Claim::Create(k), ClaimFact::Created) => Claim::Write(k),
        (Claim::Create(k), ClaimFact::Exists) => next_claim(k),
        (Claim::Create(_), ClaimFact::CreateFailed) => Claim::Failed,
        (Claim::Write(k), ClaimFact::Written) => Claim::Held(k),
        (Claim::Write(k), ClaimFact::WriteFailed) => Claim::Undo(k),
        (Claim::Undo(_), ClaimFact::Undone) => Claim::Failed,
        _ => at,
    }
}

/// The candidate whose info file is there because of the search.
pub open spec fn info_of(c: Claim) -> Option<u64> {
    match c {
        Claim::Write(k) => Some(k),
        Claim::Undo(k) => Some(k),
        Claim::Held(k) => Some(k),
        _ => None,
    }
}

proof fn short_numbers(k: nat)
    requires
        k < 100_000,
    ensures
        decimal(k).len() <= 5,
{
    reveal_with_fuel(decimal, 6);
    assert(k / 10 / 10 / 10 / 10 < 10);
}

/// There is room for every candidate that is tried.
pub proof fn candidates_have_room(k: nat)
    requires
        k < NAMES,
    ensures
        room(k, INFO_ROOM as int) >= 0,
{
    short_numbers(k);
    if k > 0 {
        suffix_bytes(k);
    }
}

/// The `k`th name to try in a trash directory for a file called `base`.
pub fn claim_name(base: &[u8], k: u64) -> (name: Vec<u8>)
    requires
        k < NAMES,
    ensures
        name@ == candidate_of(base@, k as nat, INFO_ROOM as int),
{
    proof {
        candidates_have_room(k as nat);
    }
    candidate(base, k, INFO_ROOM)
}

// ---------------------------------------------------------------------------
// Moving a file in
// ---------------------------------------------------------------------------

/// Why a move did not come about.
#[derive(Clone, Copy, PartialEq, Eq, Debug, Structural)]
pub enum MoveErr {
    Io,
    /// Every name that is tried is in use.
    Spent,
    /// The rename would cross a filesystem boundary.
    Crossed,
}

/// What follows when a name is given up.
#[derive(Clone, Copy, PartialEq, Eq, Debug, Structural)]
pub enum Onward {
    Retry,
    Fail(MoveErr),
}

/// Where a move stands.
#[derive(Clone, Copy, PartialEq, Eq, Debug, Structural)]
pub enum Move {
    /// Take the shared lock.
    Lock,
    Claim(Claim),
    /// Rename the file to `files/NAME`, overwriting nothing.
    Rename(u64),
    /// Unlink the info file of a name that is given up.
    Release(u64, Onward),
    Done(u64),
    Failed(MoveErr),
}

/// Why a move did not come about, in words; `io` is what the system said.
pub open spec fn move_text(e: MoveErr, io: Seq<char>) -> Seq<char> {
    match e {
        MoveErr::Spent => "100000 trashed items already use this name"@,
        _ => io,
    }
}

/// A move that fails passes on what the system said, unless all its names are in use.
pub proof fn a_failed_move_is_explained(e: MoveErr, io: Seq<char>)
    ensures
        move_text(e, io) == io || e is Spent,
        e is Spent ==> move_text(e, io) == "100000 trashed items already use this name"@,
{
}

/// Says why a move did not come about.
pub fn move_error(e: MoveErr, io: &str) -> (s: String)
    ensures
        s@ == move_text(e, io@),
{
    match e {
        MoveErr::Spent => "100000 trashed items already use this name".to_owned(),
        _ => io.to_owned(),
    }
}

/// What the system said during a move.
#[derive(Clone, Copy, PartialEq, Eq, Debug, Structural)]
pub enum MoveFact {
    Locked,
    LockFailed,
    Claim(ClaimFact),
    Renamed,
    RenameExists,
    RenameCrossed,
    RenameFailed,
    Released,
}

/// A move with its search for a name.
pub open spec fn with_claim(c: Claim) -> Move {
    match c {
        Claim::Held(k) => Move::Rename(k),
        Claim::Failed => Move::Failed(MoveErr::Io),
        Claim::Spent => Move::Failed(MoveErr::Spent),
        c => Move::Claim(c),
    }
}

/// One step of a move.
pub open spec fn moved(at: Move, f: MoveFact) -> Move {
    match (at, f) {
        (Move::Lock, MoveFact::Locked) => with_claim(claim_from(0)),
        (Move::Lock, MoveFact::LockFailed) => Move::Failed(MoveErr::Io),
        (Move::Claim(c), MoveFact::Claim(g)) => with_claim(claimed(c, g)),
        (Move::Rename(k), MoveFact::Renamed) => Move::Done(k),
        (Move::Rename(k), MoveFact::RenameExists) => Move::Release(k, Onward::Retry),
        (Move::Rename(k), MoveFact::RenameCrossed) => Move::Release(
            k,
            Onward::Fail(MoveErr::Crossed),
        ),
        (Move::Rename(k), MoveFact::RenameFailed) => Move::Release(k, Onward::Fail(MoveErr::Io)),
        (Move::Release(k, Onward::Retry), MoveFact::Released) => with_claim(claim_from(k + 1)),
        (Move::Release(k, Onward::Fail(e)), MoveFact::Released) => Move::Failed(e),
        _ => at,
    }
}

fn after_claim(c: Claim) -> (m: Move)
    ensures
        m == with_claim(c),
{
    match c {
        Claim::Held(k) => Move::Rename(k),
        Claim::Failed => Move::Failed(MoveErr::Io),
        Claim::Spent => Move::Failed(MoveErr::Spent),
        c => Move::Claim(c),
    }
}

/// Goes one step in moving a file into a trash directory.
pub fn move_in(at: Move, f: MoveFact) -> (m: Move)
    ensures
        m == moved(at, f),
{
    match (at, f) {
        (Move::Lock, MoveFact::Locked) => after_claim(start_claim(0)),
        (Move::Lock, MoveFact::LockFailed) => Move::Failed(MoveErr::Io),
        (Move::Claim(c), MoveFact::Claim(g)) => after_claim(claim(c, g)),
        (Move::Rename(k), MoveFact::Renamed) => Move::Done(k),
        (Move::Rename(k), MoveFact::RenameExists) => Move::Release(k, Onward::Retry),
        (Move::Rename(k), MoveFact::RenameCrossed) => Move::Release(
            k,
            Onward::Fail(MoveErr::Crossed),
        ),
        (Move::Rename(k), MoveFact::RenameFailed) => Move::Release(k, Onward::Fail(MoveErr::Io)),
        (Move::Release(k, Onward::Retry), MoveFact::Released) => after_claim(next_claim(k)),
        (Move::Release(_, Onward::Fail(e)), MoveFact::Released) => Move::Failed(e),
        _ => at,
    }
}

// ---------------------------------------------------------------------------
// What a move leaves behind
// ---------------------------------------------------------------------------

/// What a move has done to the trash directory: whether its lock is held, the
/// info file that is there because of the move, and the name under which the file
/// lies in `files/`.
#[verifier::ext_equal]
pub struct MoveWorld {
    pub locked: bool,
    pub info: Option<u64>,
    pub entry: Option<u64>,
}

/// What the system's reports mean for the trash directory.
pub open spec fn move_effect(w: MoveWorld, at: Move, f: MoveFact) -> MoveWorld {
    match (at, f) {
        (Move::Lock, MoveFact::Locked) => MoveWorld { locked: true, ..w },
        (Move::Claim(Claim::Create(k)), MoveFact::Claim(ClaimFact::Created)) => MoveWorld {
            info: Some(k),
            ..w
        },
        (Move::Claim(Claim::Undo(k)), MoveFact::Claim(ClaimFact::Undone)) => MoveWorld {
            info: None,
            ..w
        },
        (Move::Release(k, n), MoveFact::Released) => MoveWorld { info: None, ..w },
        (Move::Rename(k), MoveFact::Renamed) => MoveWorld { entry: Some(k), ..w },
        _ => w,
    }
}

/// A move after a course of reports.
pub open spec fn move_run(facts: Seq<MoveFact>) -> (Move, MoveWorld)
    decreases facts.len(),
{
    if facts.len() == 0 {
        (Move::Lock, MoveWorld { locked: false, info: None, entry: None })
    } else {
        let (at, w) = move_run(facts.drop_last());
        (moved(at, facts.last()), move_effect(w, at, facts.last()))
    }
}

/// What holds at every point of a move.
pub open spec fn move_sound(at: Move, w: MoveWorld) -> bool {
    match at {
        Move::Lock => w.info is None && w.entry is None,
        Move::Claim(c) => w.locked && w.info == info_of(c) && w.entry is None,
        Move::Rename(k) => w.locked && w.info == Some(k) && w.entry is None,
        Move::Release(k, n) => w.locked && w.info == Some(k) && w.entry is None,
        Move::Done(k) => w.locked && w.info == Some(k) && w.entry == Some(k),
        Move::Failed(e) => w.info is None && w.entry is None,
    }
}

/// Whatever the system reports: nothing is written to the trash directory before
/// its lock is held; the file is renamed in only while its complete info file is
/// there; a move that is done leaves both, and a move that failed leaves neither.
pub proof fn info_comes_first_and_goes_with_failure(facts: Seq<MoveFact>)
    ensures
        move_sound(move_run(facts).0, move_run(facts).1),
    decreases facts.len(),
{
    if facts.len() > 0 {
        info_comes_first_and_goes_with_failure(facts.drop_last());
    }
}

/// The reports on names that are taken, one after the other: of one that lies in
/// `files/`, that it is there; of any other, that its info file is.
pub open spec fn taken_names(in_files: Seq<bool>) -> Seq<ClaimFact>
    decreases in_files.len(),
{
    if in_files.len() == 0 {
        Seq::empty()
    } else {
        taken_names(in_files.drop_last()) + (if in_files.last() {
            seq![ClaimFact::Present]
        } else {
            seq![ClaimFact::Absent, ClaimFact::Exists]
        })
    }
}

/// Reports on names as reports on a move.
pub open spec fn as_moves(v: Seq<ClaimFact>) -> Seq<MoveFact> {
    Seq::new(v.len(), |i: int| MoveFact::Claim(v[i]))
}

proof fn move_goes_on(facts: Seq<MoveFact>, f: MoveFact)
    ensures
        move_run(facts.push(f)).0 == moved(move_run(facts).0, f),
{
    assert(facts.push(f).drop_last() =~= facts);
}

/// The first free name is taken: names in use are passed over in their order,
/// up to a hundred thousand, and under the first that is free the file is moved
/// in.
pub proof fn the_first_free_name_is_taken(in_files: Seq<bool>)
    requires
        in_files.len() <= 100_000,
    ensures
        ({
            let k = in_files.len() as u64;
            let passed = seq![MoveFact::Locked] + as_moves(taken_names(in_files));
            let held = passed.push(MoveFact::Claim(ClaimFact::Absent)).push(
                MoveFact::Claim(ClaimFact::Created),
            ).push(MoveFact::Claim(ClaimFact::Written));
            &&& k == 100_000 ==> move_run(passed).0 == Move::Failed(MoveErr::Spent)
            &&& k < 100_000 ==> {
                &&& move_run(passed).0 == Move::Claim(Claim::Stat(k))
                &&& move_run(held).0 == Move::Rename(k)
                &&& move_run(held.push(MoveFact::Renamed)).0 == Move::Done(k)
                &&& move_run(held.push(MoveFact::RenameExists).push(MoveFact::Released)).0 == (if k
                    < 99_999 {
                    Move::Claim(Claim::Stat((k + 1) as u64))
                } else {
                    Move::Failed(MoveErr::Spent)
                })
                &&& move_run(held.push(MoveFact::RenameCrossed).push(MoveFact::Released)).0
                    == Move::Failed(MoveErr::Crossed)
                &&& move_run(held.push(MoveFact::RenameFailed).push(MoveFact::Released)).0
                    == Move::Failed(MoveErr::Io)
            }
        }),
    decreases in_files.len(),
{
    let k = in_files.len() as u64;
    let passed = seq![MoveFact::Locked] + as_moves(taken_names(in_files));
    if in_files.len() == 0 {
        let none = Seq::<MoveFact>::empty();
        move_goes_on(none, MoveFact::Locked);
        assert(passed =~= none.push(MoveFact::Locked));
    } else {
        let front = in_files.drop_last();
        the_first_free_name_is_taken(front);
        let before = seq![MoveFact::Locked] + as_moves(taken_names(front));
        if in_files.last() {
            move_goes_on(before, MoveFact::Claim(ClaimFact::Present));
            assert(passed =~= before.push(MoveFact::Claim(ClaimFact::Present)));
        } else {
            let mid = before.push(MoveFact::Claim(ClaimFact::Absent));
            move_goes_on(before, MoveFact::Claim(ClaimFact::Absent));
            move_goes_on(mid, MoveFact::Claim(ClaimFact::Exists));
            assert(passed =~= mid.push(MoveFact::Claim(ClaimFact::Exists)));
        }
    }
    let absent = passed.push(MoveFact::Claim(ClaimFact::Absent));
    let created = absent.push(MoveFact::Claim(ClaimFact::Created));
    let held = created.push(MoveFact::Claim(ClaimFact::Written));
    move_goes_on(passed, MoveFact::Claim(ClaimFact::Absent));
    move_goes_on(absent, MoveFact::Claim(ClaimFact::Created));
    move_goes_on(created, MoveFact::Claim(ClaimFact::Written));
    move_goes_on(held, MoveFact::Renamed);
    move_goes_on(held, MoveFact::RenameExists);
    move_goes_on(held, MoveFact::RenameCrossed);
    move_goes_on(held, MoveFact::RenameFailed);
    move_goes_on(held.push(MoveFact::RenameExists), MoveFact::Released);
    move_goes_on(held.push(MoveFact::RenameCrossed), MoveFact::Released);
    move_goes_on(held.push(MoveFact::RenameFailed), MoveFact::Released);
}

/// A move that cannot take a name fails with what the system said: a lock that
/// is not had, a name that cannot be looked at, an info file that cannot be
/// created or, once it is taken back, written. What is decided stays.
pub proof fn a_move_fails_for_its_fault(facts: Seq<MoveFact>, f: MoveFact)
    ensures
        ({
            let next = move_run(facts.push(f)).0;
            match move_run(facts).0 {
                Move::Lock => f is LockFailed ==> next == Move::Failed(MoveErr::Io),
                Move::Claim(Claim::Stat(k)) => f == MoveFact::Claim(ClaimFact::StatFailed) ==> next
                    == Move::Failed(MoveErr::Io),
                Move::Claim(Claim::Create(k)) => f == MoveFact::Claim(ClaimFact::CreateFailed)
                    ==> next == Move::Failed(MoveErr::Io),
                Move::Claim(Claim::Write(k)) => f == MoveFact::Claim(ClaimFact::WriteFailed) ==> next
                    == Move::Claim(Claim::Undo(k)),
                Move::Claim(Claim::Undo(k)) => f == MoveFact::Claim(ClaimFact::Undone) ==> next
                    == Move::Failed(MoveErr::Io),
                Move::Done(k) => next == Move::Done(k),
                Move::Failed(e) => next == Move::Failed(e),
                _ => true,
            }
        }),
{
    move_goes_on(facts, f);
}

} // verus!
