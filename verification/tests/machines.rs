//! Walking, removing, moving in, copying, deleting: step by step.
use rip::copying::{
    begin_copy, copy_error, copy_notice, copy_question, copy_to_home, CopyArgs, CopyErr, CopyFact,
    CopyTexts, Copying, Yield,
};
use rip::delete::{
    begin_batch, delete_batch, delete_entry, discard_error, discard_verified, info_matches,
    is_tombstone, open_top, orphan_still_same, owner_write, staging, still_dangles, still_same,
    Batch, BatchArgs, BatchFact, Discard, DiscardErr, DiscardFact, Doomed, Fate, FateFact, Report,
    Stay,
};
use rip::dates::DateTime;
use rip::info::Kind;
use rip::load::{InfoRead, Look, Orphan};
use rip::remove::{
    enter_or_unlink, leave_dir, removal_summary, Doom, Fact, Policy, Removal, Remove, RemoveRun, Why,
};
use rip::reserve::{
    claim, claim_name, move_error, move_in, next_claim, start_claim, Claim, ClaimFact, Move,
    MoveErr, MoveFact, Onward, NAMES,
};
use rip::sys::{Attrs, Dev, Ident, Manifest, Meta, Stamp, S_IFDIR, S_IFLNK, S_IFREG};
use rip::trash::Trash;
use rip::tree::Spot;
use rip::walk::{
    describe, removable_top_checks, walk_step, Access, Check, Problem, Sight, Visit, WalkCtx,
    WalkRun,
};

fn meta(mode: u32, ino: u64, size: u64) -> Meta {
    Meta {
        id: ident(ino),
        mode,
        uid: 1000,
        nlink: 1,
        size,
        mtime: Stamp { secs: 5, nanos: 0 },
        ctime: Stamp { secs: 5, nanos: 0 },
        attrs: Attrs {
            mount_root: false,
            immutable: false,
            append: false,
        },
    }
}

fn ident(ino: u64) -> Ident {
    Ident {
        dev: Dev(1, 0),
        ino,
        mnt: 3,
    }
}

fn file(ino: u64, size: u64) -> Meta {
    meta(S_IFREG | 0o644, ino, size)
}

fn dir(ino: u64) -> Meta {
    meta(S_IFDIR | 0o755, ino, 4096)
}

fn names(n: &[&str]) -> Vec<Vec<u8>> {
    n.iter().map(|s| s.as_bytes().to_vec()).collect()
}

fn seen(m: Meta) -> Sight {
    Sight::Seen {
        meta: m,
        readable: true,
    }
}

fn opened(m: Meta) -> Sight {
    Sight::Opened {
        id: Some(m.id),
        usable: true,
    }
}

// ---- walk ----

#[test]
fn a_walk_measures_a_tree() {
    let top = dir(10);
    let mut w = WalkRun::begin(Check::Size, b"d", &top, Access::Allowed, None, true, "");
    w.feed(opened(top), "", vec![]);
    w.feed(Sight::Listed, "", names(&["a", "b", "l"]));
    // The last name is visited first.
    assert_eq!(w.name, b"l");
    assert_eq!(w.rel, b"d/l");
    w.feed(seen(meta(S_IFLNK | 0o777, 13, 7)), "", vec![]);
    assert_eq!(w.name, b"b");
    // Two names of one file.
    w.feed(seen(file(11, 5)), "", vec![]);
    w.feed(seen(file(11, 5)), "", vec![]);
    assert_eq!(w.stage, rip::walk::Stage::Leaving);
    w.left();
    assert_eq!(w.stage, rip::walk::Stage::Done);
    assert_eq!(w.walk.size, 12);
    assert!(w.walk.problem.is_none());
    assert!(w.walk.manifest.vouches(&b"a".to_vec(), &file(11, 5)));
    assert!(w.walk.manifest.vouches(&b"".to_vec(), &top));
}

#[test]
fn a_walk_finds_what_cannot_be_removed() {
    let top = dir(10);
    let check = Check::Removable { uid: 1000 };
    let mut w = WalkRun::begin(check, b"d", &top, Access::Allowed, Some(dir(9)), true, "");
    w.feed(
        Sight::Opened {
            id: Some(top.id),
            usable: false,
        },
        "",
        vec![],
    );
    let closed = w.walk.problem.clone().unwrap();
    assert!(closed.contains('d'), "{closed}");
    w.feed(Sight::Listed, "", names(&["x"]));
    let mut frozen = file(12, 1);
    frozen.attrs.immutable = true;
    w.feed(seen(frozen), "", vec![]);
    // The first problem stays.
    assert_eq!(w.walk.problem.unwrap(), closed);
}

#[test]
fn the_top_of_a_tree_is_checked() {
    let check = |access: Access, parent: Option<Meta>, top: Meta, readable: bool| {
        removable_top_checks(access, parent, &top, readable, 1000)
    };
    let top = file(10, 1);
    assert_eq!(check(Access::Allowed, Some(dir(9)), top, true), None);
    assert_eq!(check(Access::ReadOnly, None, top, true), Some(Problem::ReadOnly));
    assert_eq!(check(Access::Denied, None, top, true), Some(Problem::Parent));
    let mut p = dir(9);
    p.attrs.append = true;
    assert_eq!(check(Access::Allowed, Some(p), top, true), Some(Problem::ParentFrozen));
    let mut sticky = meta(S_IFDIR | 0o1777, 9, 0);
    sticky.uid = 0;
    let mut foreign = top;
    foreign.uid = 7;
    assert_eq!(check(Access::Allowed, Some(sticky), foreign, true), Some(Problem::Sticky));
    assert_eq!(check(Access::Allowed, Some(sticky), top, true), None);
    assert_eq!(check(Access::Allowed, None, top, false), Some(Problem::Unreadable));
    let mut frozen = top;
    frozen.attrs.immutable = true;
    assert_eq!(check(Access::Allowed, None, frozen, true), Some(Problem::Immutable));
    let texts: Vec<String> = [
        Problem::ReadOnly,
        Problem::Parent,
        Problem::ParentFrozen,
        Problem::Sticky,
        Problem::Immutable,
        Problem::Unreadable,
        Problem::OtherMount,
        Problem::Closed,
        Problem::Changed,
    ]
    .iter()
    .map(|p| describe(*p, b"x", "io"))
    .collect();
    for (i, t) in texts.iter().enumerate() {
        assert!(!texts[..i].contains(t), "{t}");
    }
    assert!(describe(Problem::Io, b"x", "denied").contains("denied"));
}

#[test]
fn a_walk_stays_on_its_mount() {
    let ctx = WalkCtx {
        own_mnt: 3,
        uid: Some(1000),
    };
    let spot = Spot {
        sticky: false,
        owner: 0,
    };
    let mut other = dir(10);
    other.id.mnt = 4;
    let (next, p) = walk_step(ctx, spot, Visit::Stat, seen(other));
    assert!(matches!(next, Visit::Barred(_)));
    assert_eq!(p, Some(Problem::OtherMount));
    // What was opened is not what was looked at.
    let (next, p) = walk_step(ctx, spot, Visit::Open(dir(10)), opened(dir(11)));
    assert!(matches!(next, Visit::Barred(_)));
    assert_eq!(p, Some(Problem::Changed));
    // Measuring finds no problems.
    let size = WalkCtx {
        own_mnt: 3,
        uid: None,
    };
    assert_eq!(walk_step(size, spot, Visit::Stat, seen(other)).1, None);
    assert_eq!(walk_step(size, spot, Visit::Stat, Sight::StatFailed), (Visit::Skip, None));
}

#[test]
fn files_on_other_mounts_do_not_count() {
    let top = dir(10);
    let mut bound = file(12, 5);
    bound.id.mnt = 4;
    let walk = |check: Check| {
        let mut w = WalkRun::begin(check, b"d", &top, Access::Allowed, None, true, "");
        w.feed(opened(top), "", vec![]);
        w.feed(Sight::Listed, "", names(&["own", "bound"]));
        w.feed(seen(bound), "", vec![]);
        w.feed(seen(file(11, 3)), "", vec![]);
        w.left();
        assert_eq!(w.stage, rip::walk::Stage::Done);
        w.walk
    };
    let measured = walk(Check::Size);
    assert_eq!(measured.size, 3);
    assert!(measured.problem.is_none());
    assert!(measured.manifest.holds(&file(11, 3)));
    assert!(!measured.manifest.holds(&bound));
    let removable = walk(Check::Removable { uid: 1000 });
    assert_eq!(removable.size, 3);
    assert_eq!(removable.problem.unwrap(), "d/bound is on another mount");
}

#[test]
fn only_a_new_file_needs_room_in_the_size() {
    let top = dir(10);
    let mut w = WalkRun::begin(Check::Size, b"d", &top, Access::Allowed, None, true, "");
    w.feed(opened(top), "", vec![]);
    w.feed(Sight::Listed, "", names(&["b", "a"]));
    assert!(w.fits(&seen(file(11, u64::MAX))));
    w.feed(seen(file(11, u64::MAX)), "", vec![]);
    // Its second name, a directory and another mount add nothing.
    assert!(w.fits(&seen(file(11, u64::MAX))));
    assert!(w.fits(&seen(dir(12))));
    let mut bound = file(13, 1);
    bound.id.mnt = 4;
    assert!(w.fits(&seen(bound)));
    assert!(!w.fits(&seen(file(14, 1))));
    w.feed(seen(file(11, u64::MAX)), "", vec![]);
    assert_eq!(w.walk.size, u64::MAX);
}

// ---- remove ----

fn how(manifest: Option<&Manifest>, trash: bool) -> Remove<'_> {
    Remove {
        mnt: 3,
        manifest,
        trash,
        uid: 1000,
    }
}

#[test]
fn a_tree_is_removed_from_the_leaves_up() {
    let mut r = RemoveRun::begin(how(None, false), b"d");
    let top = dir(10);
    r.feed(Fact::Seen(top), "", vec![]);
    r.feed(Fact::Opened { id: Some(top.id) }, "", vec![]);
    r.feed(Fact::Listed, "", names(&["a"]));
    assert_eq!(r.rel, b"d/a");
    r.feed(Fact::Seen(file(11, 1)), "", vec![]);
    r.feed(Fact::Unlinked, "", vec![]);
    assert_eq!(r.stage, rip::remove::Stage::Leaving);
    assert_eq!(r.name, b"d");
    r.feed(Fact::Unlinked, "", vec![]);
    assert_eq!(r.stage, rip::remove::Stage::Done);
    assert!(r.out.removed_any && r.out.kept.is_empty());
}

#[test]
fn only_what_the_manifest_holds_is_removed() {
    let mut m = Manifest::new();
    m.record(b"".to_vec(), &dir(10));
    m.record(b"a".to_vec(), &file(11, 1));
    let mut r = RemoveRun::begin(how(Some(&m), false), b"d");
    r.feed(Fact::Seen(dir(10)), "", vec![]);
    r.feed(Fact::Opened { id: Some(ident(10)) }, "", vec![]);
    r.feed(Fact::Listed, "", names(&["a", "new"]));
    r.feed(Fact::Seen(file(12, 1)), "", vec![]);
    // The same file grown meanwhile is another content.
    r.feed(Fact::Seen(file(11, 2)), "", vec![]);
    r.feed(Fact::UnlinkFailed, "not empty", vec![]);
    assert!(!r.out.removed_any);
    assert_eq!(
        removal_summary(&r.out),
        "d/new: changed or new since it was copied; d/a: changed or new since it was copied; \
         d: not empty"
    );
}

#[test]
fn nothing_of_another_mount_is_removed() {
    let p = Policy {
        mnt: 3,
        listed_only: false,
        trash: true,
        uid: 1000,
    };
    for mut m in [file(11, 1), dir(12), meta(S_IFLNK | 0o777, 13, 1)] {
        m.id.mnt = 4;
        assert_eq!(
            enter_or_unlink(p, true, Doom::Stat, Fact::Seen(m)),
            Doom::Kept(Why::MountPoint)
        );
    }
    let mut bound = file(11, 1);
    bound.id.mnt = 4;
    let mut r = RemoveRun::begin(how(None, true), b"f");
    r.feed(Fact::Seen(bound), "", vec![]);
    assert_eq!(r.stage, rip::remove::Stage::Done);
    assert!(!r.out.removed_any);
    assert_eq!(removal_summary(&r.out), "f: a mount point; not crossing it");
}

#[test]
fn removal_widens_only_its_own_trash() {
    let p = |trash: bool| Policy {
        mnt: 3,
        listed_only: false,
        trash,
        uid: 1000,
    };
    let closed = meta(S_IFDIR | 0o555, 10, 0);
    assert_eq!(
        enter_or_unlink(p(true), false, Doom::Open(closed), Fact::OpenDenied),
        Doom::Widen(closed)
    );
    assert_eq!(
        enter_or_unlink(p(false), false, Doom::Open(closed), Fact::OpenDenied),
        Doom::Kept(Why::Io)
    );
    assert_eq!(
        enter_or_unlink(
            p(true),
            false,
            Doom::Open(closed),
            Fact::Opened { id: Some(closed.id) }
        ),
        Doom::List {
            meta: closed,
            widen: true
        }
    );
    let mut mount = dir(10);
    mount.id.mnt = 9;
    assert_eq!(
        enter_or_unlink(p(true), false, Doom::Stat, Fact::Seen(mount)),
        Doom::Kept(Why::MountPoint)
    );
    // A link is unlinked, whatever it leads to.
    assert_eq!(
        enter_or_unlink(p(true), false, Doom::Stat, Fact::Seen(meta(S_IFLNK | 0o777, 1, 1))),
        Doom::Unlink
    );
    assert_eq!(leave_dir(Fact::UnlinkMissing), Doom::Gone);
}

// ---- taking a name ----

#[test]
fn names_are_claimed_one_after_the_other() {
    let mut at = start_claim(0);
    assert_eq!(at, Claim::Stat(0));
    at = claim(at, ClaimFact::Present);
    assert_eq!(at, Claim::Stat(1));
    at = claim(at, ClaimFact::Absent);
    at = claim(at, ClaimFact::Exists);
    assert_eq!(at, Claim::Stat(2));
    at = claim(at, ClaimFact::Absent);
    at = claim(at, ClaimFact::Created);
    assert_eq!(claim(at, ClaimFact::WriteFailed), Claim::Undo(2));
    assert_eq!(claim(at, ClaimFact::Written), Claim::Held(2));
    assert_eq!(next_claim(NAMES - 1), Claim::Spent);
    assert_eq!(claim_name(b"x", 0), b"x");
    assert_eq!(claim_name(b"x", 99_999), b"x~99999");
}

#[test]
fn a_move_that_fails_gives_its_name_back() {
    let run = |facts: &[MoveFact]| facts.iter().fold(Move::Lock, |at, f| move_in(at, *f));
    let held = [
        MoveFact::Locked,
        MoveFact::Claim(ClaimFact::Absent),
        MoveFact::Claim(ClaimFact::Created),
        MoveFact::Claim(ClaimFact::Written),
    ];
    assert_eq!(run(&held), Move::Rename(0));
    let then = |f: MoveFact| move_in(Move::Rename(0), f);
    assert_eq!(then(MoveFact::Renamed), Move::Done(0));
    assert_eq!(then(MoveFact::RenameExists), Move::Release(0, Onward::Retry));
    let crossed = then(MoveFact::RenameCrossed);
    assert_eq!(crossed, Move::Release(0, Onward::Fail(MoveErr::Crossed)));
    assert_eq!(move_in(crossed, MoveFact::Released), Move::Failed(MoveErr::Crossed));
    assert_eq!(
        move_in(then(MoveFact::RenameExists), MoveFact::Released),
        Move::Claim(Claim::Stat(1))
    );
}

// ---- copying ----

fn copy_args(refuse: bool, force: bool) -> CopyArgs {
    CopyArgs {
        refuse,
        force,
        threshold: 10,
    }
}

#[test]
fn a_copy_is_complete_before_the_source_goes() {
    let a = copy_args(false, false);
    let mut at = begin_copy(a);
    let way = [
        (CopyFact::Walked { sound: true, size: 11 }, Copying::Ask),
        (CopyFact::Yes, Copying::Lock),
        (CopyFact::Done, Copying::Stage),
        (CopyFact::Done, Copying::Box),
        (CopyFact::Done, Copying::Copy),
        (CopyFact::Done, Copying::Verify),
        (CopyFact::Done, Copying::Claim(Claim::Stat(0))),
        (CopyFact::Claim(ClaimFact::Absent), Copying::Claim(Claim::Create(0))),
        (CopyFact::Claim(ClaimFact::Created), Copying::Claim(Claim::Write(0))),
        (CopyFact::Claim(ClaimFact::Written), Copying::Publish(0)),
        (CopyFact::Done, Copying::Sync(0)),
        (CopyFact::Done, Copying::Remove(0)),
        (
            CopyFact::Removed {
                any: true,
                kept: false,
            },
            Copying::Done(0),
        ),
    ];
    for (fact, want) in way {
        at = copy_to_home(a, at, fact);
        assert_eq!(at, want);
    }
}

#[test]
fn a_copy_that_fails_is_taken_back() {
    let a = copy_args(false, false);
    let step = |at: Copying, f: CopyFact| copy_to_home(a, at, f);
    assert_eq!(
        step(Copying::Walk, CopyFact::Walked { sound: false, size: 1 }),
        Copying::Failed(CopyErr::Problem)
    );
    assert_eq!(step(Copying::Walk, CopyFact::WalkFailed), Copying::Failed(CopyErr::Io));
    assert_eq!(step(Copying::Ask, CopyFact::No), Copying::Declined);
    assert_eq!(step(Copying::Ask, CopyFact::CannotAsk), Copying::Failed(CopyErr::CannotAsk));
    assert_eq!(step(Copying::Copy, CopyFact::Failed), Copying::Drop(CopyErr::Copy));
    assert_eq!(step(Copying::Verify, CopyFact::Failed), Copying::Drop(CopyErr::Verify));
    assert_eq!(step(Copying::Drop(CopyErr::Copy), CopyFact::Done), Copying::Failed(CopyErr::Copy));
    assert_eq!(
        step(Copying::Publish(4), CopyFact::Exists),
        Copying::Release(4, Yield::Retry)
    );
    assert_eq!(
        step(Copying::Release(4, Yield::Retry), CopyFact::Done),
        Copying::Claim(Claim::Stat(5))
    );
    assert_eq!(step(Copying::Publish(4), CopyFact::Failed), Copying::DropHeld(4));
    assert_eq!(
        step(
            Copying::Remove(4),
            CopyFact::Removed {
                any: false,
                kept: true
            }
        ),
        Copying::Discard(4)
    );
    assert_eq!(
        step(Copying::Discard(4), CopyFact::Done),
        Copying::Failed(CopyErr::Changed)
    );
    assert_eq!(
        step(
            Copying::Remove(4),
            CopyFact::Removed {
                any: true,
                kept: true
            }
        ),
        Copying::Failed(CopyErr::Kept(4))
    );
    assert_eq!(begin_copy(copy_args(true, false)), Copying::Failed(CopyErr::Refused));
    // -f asks nothing.
    assert_eq!(
        copy_to_home(
            copy_args(false, true),
            Copying::Walk,
            CopyFact::Walked {
                sound: true,
                size: 99
            }
        ),
        Copying::Lock
    );
}

#[test]
fn what_is_said_of_a_copy() {
    let kept = Removal::new();
    let t = CopyTexts {
        why: "another subvolume",
        source: b"/c/config.toml",
        io: "denied",
        dest: b"/t/files/x",
        kept: &kept,
    };
    assert_eq!(
        copy_error(CopyErr::Refused, &t),
        "no usable trash on its filesystem (another subvolume); left it untouched (fallback = \
         \"refuse\" in /c/config.toml)"
    );
    assert_eq!(copy_error(CopyErr::Io, &t), "denied");
    assert_eq!(copy_error(CopyErr::Problem, &t), "denied; not copying it");
    assert!(copy_error(CopyErr::Copy, &t).contains("left it untouched"));
    assert!(copy_error(CopyErr::Verify, &t).contains("verify"));
    assert!(copy_error(CopyErr::Spent, &t).contains("100000"));
    assert!(copy_error(CopyErr::Changed, &t).contains("changed while it was copied"));
    assert!(copy_error(CopyErr::Kept(1), &t).contains("/t/files/x"));
    assert!(copy_question(b"x", 2048, "why", b"/t").contains("2.0 KiB"));
    assert!(copy_notice(b"x", 2048, "why").contains("copying 2.0 KiB"));
}

// ---- deleting ----

fn read(ino: u64, bytes: &[u8]) -> InfoRead {
    InfoRead {
        id: ident(ino),
        bytes: bytes.to_vec(),
    }
}

#[test]
fn a_second_look_tells_a_reused_name() {
    let info = read(5, b"a");
    assert!(info_matches(&Some(read(5, b"a")), &info));
    assert!(!info_matches(&Some(read(5, b"b")), &info));
    assert!(!info_matches(&Some(read(6, b"a")), &info));
    assert!(!info_matches(&None, &info));
    assert!(still_same(Some(ident(1)), &Some(read(5, b"a")), ident(1), &info));
    assert!(!still_same(Some(ident(2)), &Some(read(5, b"a")), ident(1), &info));
    assert!(!still_same(None, &Some(read(5, b"a")), ident(1), &info));

    let day = DateTime {
        year: 2026,
        month: 1,
        day: 1,
        hour: 0,
        minute: 0,
        second: 0,
        nano: 0,
    };
    let mut o = Orphan {
        trash: 0,
        name: b"o".to_vec(),
        date: day,
        entry: ident(1),
        info: None,
    };
    assert!(orphan_still_same(Some(ident(1)), Look::Missing, &None, &o));
    // An info has come meanwhile.
    assert!(!orphan_still_same(Some(ident(1)), Look::Found(file(7, 1)), &Some(read(7, b"x")), &o));
    o.info = Some(read(5, b"a"));
    assert!(orphan_still_same(Some(ident(1)), Look::Found(file(5, 1)), &Some(read(5, b"a")), &o));

    assert!(still_dangles(b"d", Look::Missing, Some(ident(5)), ident(5)));
    assert!(!still_dangles(b"d", Look::Found(file(1, 1)), Some(ident(5)), ident(5)));
    assert!(!still_dangles(b"d", Look::Missing, Some(ident(6)), ident(5)));
    assert!(!still_dangles(b"d", Look::Missing, None, ident(5)));
}

#[test]
fn an_entry_goes_before_its_info() {
    let run = |d: Doomed, facts: &[FateFact]| facts.iter().fold(Fate::Recheck, |at, f| delete_entry(d, at, *f));
    assert_eq!(run(Doomed::Item, &[FateFact::Same]), Fate::Mounts);
    assert_eq!(
        run(
            Doomed::Item,
            &[FateFact::Same, FateFact::Free, FateFact::Tombed]
        ),
        Fate::Unlink
    );
    assert_eq!(
        run(
            Doomed::Item,
            &[FateFact::Same, FateFact::Free, FateFact::Tombed, FateFact::Unlinked]
        ),
        Fate::Deleted
    );
    assert_eq!(run(Doomed::Item, &[FateFact::Different]), Fate::Stays(Stay::Changed));
    assert_eq!(
        run(Doomed::Item, &[FateFact::Same, FateFact::InTheWay]),
        Fate::Stays(Stay::Mount)
    );
    assert_eq!(
        run(Doomed::Item, &[FateFact::Same, FateFact::Free, FateFact::TombFailed]),
        Fate::Stays(Stay::Io)
    );
    assert_eq!(
        run(
            Doomed::Orphan { info: false },
            &[FateFact::Same, FateFact::Free, FateFact::Tombed]
        ),
        Fate::Deleted
    );
    assert_eq!(run(Doomed::Dangling, &[FateFact::Different]), Fate::Resolved);
    assert_eq!(run(Doomed::Dangling, &[FateFact::Same]), Fate::Unlink);
    let mut r = Report::new();
    r.tally(b"a".to_vec(), Fate::Deleted, "");
    r.tally(b"b".to_vec(), Fate::Stays(Stay::Io), "denied");
    r.tally(b"c".to_vec(), Fate::Resolved, "");
    r.keep(b"d".to_vec(), "busy".to_string());
    assert_eq!(r.deleted, 1);
    assert_eq!(
        r.kept,
        vec![
            (b"b".to_vec(), "denied".to_string()),
            (b"d".to_vec(), "busy".to_string())
        ]
    );
}

#[test]
fn a_batch_holds_its_lock_for_the_renames() {
    let a = BatchArgs {
        any: true,
        sweep: true,
    };
    let mut at = begin_batch(a);
    assert_eq!(at, Batch::Stage { create: true });
    for want in [
        Batch::Lock,
        Batch::Entries,
        Batch::Sweep,
        Batch::Unlock,
        Batch::Clear,
        Batch::Done,
    ] {
        at = delete_batch(a, at, BatchFact::Done);
        assert_eq!(at, want);
    }
    let nothing = BatchArgs {
        any: false,
        sweep: true,
    };
    assert_eq!(begin_batch(nothing), Batch::Stage { create: false });
    assert_eq!(delete_batch(a, Batch::Lock, BatchFact::Failed), Batch::Failed);
}

#[test]
fn the_staging_directory_is_checked() {
    let t = Trash {
        kind: Kind::Home,
        path: b"/t".to_vec(),
        base: b"/".to_vec(),
        id: ident(50),
        files_id: ident(51),
    };
    assert!(staging(1000, 1000, ident(60), &t).is_ok());
    assert!(staging(0, 1000, ident(60), &t).is_err());
    let mut elsewhere = ident(60);
    elsewhere.mnt = 9;
    assert!(staging(1000, 1000, elsewhere, &t).is_err());
    assert!(open_top(ident(50), &t).is_ok());
    let mut other = ident(52);
    assert!(open_top(other, &t).is_ok());
    other.dev = Dev(9, 9);
    assert!(open_top(other, &t).is_err());
    assert!(is_tombstone(b"del.1.2") && !is_tombstone(b"put.1.2"));
    assert_eq!(owner_write(&meta(S_IFDIR | 0o555, 1, 0), 1000), Some(S_IFDIR | 0o755));
    assert_eq!(owner_write(&meta(S_IFDIR | 0o755, 1, 0), 1000), None);
    assert_eq!(owner_write(&meta(S_IFDIR | 0o555, 1, 0), 7), None);
    assert_eq!(owner_write(&file(1, 0), 1000), None);
}

#[test]
fn only_the_meant_entry_is_discarded() {
    let run = |facts: &[DiscardFact]| {
        facts
            .iter()
            .fold(Discard::Mounts, |at, f| discard_verified(true, at, *f))
    };
    let tomb = [DiscardFact::Free, DiscardFact::Done, DiscardFact::Done];
    assert_eq!(run(&tomb), Discard::Identify);
    let at = discard_verified(true, Discard::Identify, DiscardFact::Different);
    assert_eq!(at, Discard::PutBack);
    assert_eq!(
        discard_verified(true, at, DiscardFact::Done),
        Discard::Failed(DiscardErr::Changed)
    );
    let whole = [
        DiscardFact::Free,
        DiscardFact::Done,
        DiscardFact::Done,
        DiscardFact::Same,
        DiscardFact::Same,
        DiscardFact::Done,
        DiscardFact::Cleared { kept: 0 },
    ];
    assert_eq!(run(&whole), Discard::Done);
    assert_eq!(
        discard_verified(true, Discard::Clear, DiscardFact::Cleared { kept: 2 }),
        Discard::Failed(DiscardErr::Kept)
    );
    // An info that is another's stays.
    assert_eq!(
        discard_verified(true, Discard::Info, DiscardFact::Different),
        Discard::Clear
    );
    assert_eq!(
        discard_error(DiscardErr::Changed, "", 0),
        "the trash entry changed identity; leaving it in place"
    );
    assert!(discard_error(DiscardErr::Kept, "", 2).contains("2 entries kept"));
    assert_eq!(discard_error(DiscardErr::Io, "denied", 0), "denied");
    assert!(discard_error(DiscardErr::Mount, "is a mount point", 0).ends_with("is a mount point"));
}

#[test]
fn why_a_move_did_not_come_about() {
    assert_eq!(move_error(MoveErr::Io, "disk full"), "disk full");
    assert_eq!(move_error(MoveErr::Crossed, "cross-device"), "cross-device");
    assert_eq!(
        move_error(MoveErr::Spent, ""),
        "100000 trashed items already use this name"
    );
}
