//! `rip FILE...`: operands, refusals, and which trash a file goes to.
use vstd::prelude::*;
use vstd::slice::slice_subrange;
use vstd::string::*;

use crate::bytes::{copy, join_with, same, split_on, split_then_join};
use crate::info::{original_of, Kind};
use crate::mounts::{
    a_conflict_has_its_reason, conflict_of, first_with, inside, inside_of, mount_conflict,
    the_first_with_an_id_is_found, FsId, Mount, MountView, Mounts,
};
use crate::paths::{
    absolute, beyond, comps, comps_are_well_formed, comps_of_joined, dot_comp, is_name, names_in,
    parent_comp, render, rendered, rendered_keeps_comps, root_comp, split_plus, starts_with, under,
    SLASH,
};
use crate::reserve::MoveErr;
use crate::restore::{shown_as, shown_holds_no_nul};
use crate::sys::{one_file, Dev, Ident, Meta, ENOENT, ENOTDIR};
use crate::text::{decimal, escape, escaped, human, human_text, number};
use crate::trash::{skipped_views, trash_views, Skipped, Trash, TrashView};

verus! {

// ---------------------------------------------------------------------------
// Placement
// ---------------------------------------------------------------------------

/// Where a file goes.
#[derive(Debug)]
pub enum Choice {
    Home,
    Topdir,
    /// No trash can be reached by a rename, and why.
    Fallback(&'static str),
}

/// A file of the home trash's own device goes there; one of another device of
/// the same filesystem is copied or refused; a file of another filesystem goes
/// to a trash of that filesystem. So no trash directory is ever made on the
/// home trash's filesystem.
pub fn choose_trash(src_dev: Dev, src_fs: FsId, home_dev: Dev, home_fs: FsId) -> (c: Choice)
    ensures
        c is Home <==> src_dev == home_dev,
        c is Topdir <==> src_dev != home_dev && src_fs != home_fs,
        c matches Choice::Fallback(why) ==> src_dev != home_dev && src_fs == home_fs && why@
            == "it is on another subvolume of the home trash's filesystem"@,
{
    if src_dev == home_dev {
        Choice::Home
    } else if src_fs == home_fs {
        Choice::Fallback("it is on another subvolume of the home trash's filesystem")
    } else {
        Choice::Topdir
    }
}

/// What is at a place where a trash directory may be.
#[derive(Clone, Copy, PartialEq, Eq, Debug, Structural)]
pub enum Entry {
    Missing,
    Dir { uid: u32, sticky: bool },
    /// A link, a plain file, a FIFO.
    Other,
}

/// Which topdir trash is used, and whether it is to be created.
#[derive(Clone, Copy, PartialEq, Eq, Debug, Structural)]
pub enum Pick {
    Admin { create: bool },
    User { create: bool },
}

/// A place that can be used: nothing is there, or a directory of ours.
pub open spec fn usable(e: Entry, uid: u32) -> bool {
    e is Missing || (e matches Entry::Dir { uid: u, sticky } && u == uid)
}

/// A sticky directory.
pub open spec fn sticky_dir(e: Entry) -> bool {
    e matches Entry::Dir { uid, sticky } && sticky
}

/// The second method: `.Trash-$uid`.
pub open spec fn user_pick(user: Entry, uid: u32) -> Result<Pick, Seq<char>> {
    if usable(user, uid) {
        Ok(Pick::User { create: user is Missing })
    } else if user is Other {
        Err("its .Trash-UID is not a directory"@)
    } else {
        Err("its .Trash-UID belongs to another user"@)
    }
}

/// The first method, `.Trash/$uid` in a sticky `.Trash`, or else the second.
pub open spec fn pick_of(admin: Entry, admin_uid: Entry, user: Entry, uid: u32) -> Result<
    Pick,
    Seq<char>,
> {
    if sticky_dir(admin) && usable(admin_uid, uid) {
        Ok(Pick::Admin { create: admin_uid is Missing })
    } else {
        user_pick(user, uid)
    }
}

/// What choosing came to.
pub open spec fn pick_view(r: Result<Pick, &'static str>) -> Result<Pick, Seq<char>> {
    match r {
        Ok(p) => Ok(p),
        Err(e) => Err(e@),
    }
}

fn choose_user(user: Entry, uid: u32) -> (r: Result<Pick, &'static str>)
    ensures
        pick_view(r) == user_pick(user, uid),
{
    match user {
        Entry::Missing => Ok(Pick::User { create: true }),
        Entry::Dir { uid: u, sticky: _ } => {
            if u == uid {
                Ok(Pick::User { create: false })
            } else {
                Err("its .Trash-UID belongs to another user")
            }
        },
        Entry::Other => Err("its .Trash-UID is not a directory"),
    }
}

/// Picks the trash directory of a topdir. `admin_uid` only counts where `admin`
/// is a sticky directory.
pub fn choose_topdir(admin: Entry, admin_uid: Entry, user: Entry, uid: u32) -> (r: Result<
    Pick,
    &'static str,
>)
    ensures
        pick_view(r) == pick_of(admin, admin_uid, user, uid),
{
    if let Entry::Dir { uid: _, sticky } = admin {
        if sticky {
            match admin_uid {
                Entry::Missing => return Ok(Pick::Admin { create: true }),
                Entry::Dir { uid: u, sticky: _ } => {
                    if u == uid {
                        return Ok(Pick::Admin { create: false });
                    }
                },
                Entry::Other => {},
            }
        }
    }
    choose_user(user, uid)
}

/// A trash directory of somebody else's is never picked, the shared one only in
/// a sticky `.Trash`, and one is created only where nothing is.
pub proof fn picks_are_ours(admin: Entry, admin_uid: Entry, user: Entry, uid: u32)
    ensures
        pick_of(admin, admin_uid, user, uid) matches Ok(Pick::Admin { create }) ==> sticky_dir(admin)
            && usable(admin_uid, uid) && create == (admin_uid is Missing),
        pick_of(admin, admin_uid, user, uid) matches Ok(Pick::User { create }) ==> usable(user, uid)
            && create == (user is Missing) && !(sticky_dir(admin) && usable(admin_uid, uid)),
        pick_of(admin, admin_uid, user, uid) is Err ==> !usable(user, uid),
{
}

/// A trash directory that may be used is picked: the one in a sticky `.Trash`
/// first, made there if nothing is in its place, and else `.Trash-$uid`, unless
/// that is not a directory or is somebody else's.
pub proof fn a_usable_trash_is_picked(admin: Entry, admin_uid: Entry, user: Entry, uid: u32)
    ensures
        ({
            let sticky = match admin {
                Entry::Dir { uid: u, sticky } => sticky,
                _ => false,
            };
            let shared = match admin_uid {
                Entry::Missing => Some(Pick::Admin { create: true }),
                Entry::Dir { uid: u, sticky: _ } if u == uid => Some(Pick::Admin { create: false }),
                _ => None,
            };
            let own = match user {
                Entry::Missing => Ok(Pick::User { create: true }),
                Entry::Dir { uid: u, sticky: _ } if u == uid => Ok(Pick::User { create: false }),
                Entry::Dir { uid: u, sticky: _ } => Err("its .Trash-UID belongs to another user"@),
                Entry::Other => Err("its .Trash-UID is not a directory"@),
            };
            pick_of(admin, admin_uid, user, uid) == (match shared {
                Some(p) if sticky => Ok::<Pick, Seq<char>>(p),
                _ => own,
            })
        }),
{
}

// ---------------------------------------------------------------------------
// A topdir trash, opened or made
// ---------------------------------------------------------------------------

/// What a topdir trash is wanted for.
#[derive(Clone, Copy, PartialEq, Eq, Debug, Structural)]
pub struct TopArgs {
    /// The mount through which the file was reached.
    pub mnt: u64,
    /// The file's device.
    pub dev: Dev,
    pub uid: u32,
}

/// Why there is no topdir trash for a file.
#[derive(Clone, Copy, PartialEq, Eq, Debug, Structural)]
pub enum TopErr {
    Io,
    /// The mount point is covered by another mount.
    Covered,
    /// The mount point is on another subvolume than the file.
    Subvolume,
    /// `.Trash-$uid` belongs to somebody else.
    Foreign,
    /// `.Trash-$uid` is not a directory.
    NotDir,
    CannotCreate,
    CannotOpen,
    /// The trash directory is on another mount or subvolume than the file.
    OtherMount,
    /// The file is inside the trash directory of this kind.
    Inside(Kind),
}

/// Where the making of a topdir trash stands.
#[derive(Clone, Copy, PartialEq, Eq, Debug, Structural)]
pub enum Top {
    /// Open the mount point and identify it.
    Open,
    /// Look at `.Trash`, `.Trash/$uid` and `.Trash-$uid`.
    Look,
    /// Create `.Trash/$uid`; `user` is what is at `.Trash-$uid`.
    MakeAdmin { user: Entry },
    /// Create `.Trash-$uid`.
    MakeUser,
    /// Create `files/` where it is missing.
    Files(Kind),
    /// Create `info/` where it is missing.
    Infos(Kind),
    /// Open the trash directory.
    Take(Kind),
    Ready(Kind),
    Refused(TopErr),
}

/// What the system said in the making of a topdir trash.
#[derive(Clone, Copy, PartialEq, Eq, Debug, Structural)]
pub enum TopFact {
    Opened(Ident),
    OpenFailed,
    /// What is at the three places, and whether the file lies inside the second
    /// or the third.
    Looked {
        admin: Entry,
        admin_uid: Entry,
        user: Entry,
        inside_admin: bool,
        inside_user: bool,
    },
    Made,
    MakeFailed,
    Taken { id: Ident, files: Ident },
    TakenNone,
    TakeFailed,
}

/// The second method, taken.
pub open spec fn top_user(a: TopArgs, user: Entry) -> Top {
    match user_pick(user, a.uid) {
        Ok(Pick::User { create }) => if create {
            Top::MakeUser
        } else {
            Top::Files(Kind::User)
        },
        _ => if user is Other {
            Top::Refused(TopErr::NotDir)
        } else {
            Top::Refused(TopErr::Foreign)
        },
    }
}

/// One step in the making of a topdir trash.
pub open spec fn topped(a: TopArgs, at: Top, f: TopFact) -> Top {
    match (at, f) {
        (Top::Open, TopFact::OpenFailed) => Top::Refused(TopErr::Io),
        (Top::Open, TopFact::Opened(i)) => if i.mnt != a.mnt {
            Top::Refused(TopErr::Covered)
        } else if i.dev != a.dev {
            Top::Refused(TopErr::Subvolume)
        } else {
            Top::Look
        },
        (
            Top::Look,
            TopFact::Looked { admin, admin_uid, user, inside_admin, inside_user },
        ) => if inside_admin {
            Top::Refused(TopErr::Inside(Kind::Admin))
        } else if inside_user {
            Top::Refused(TopErr::Inside(Kind::User))
        } else {
            match pick_of(admin, admin_uid, user, a.uid) {
                Ok(Pick::Admin { create }) => if create {
                    Top::MakeAdmin { user }
                } else {
                    Top::Files(Kind::Admin)
                },
                _ => top_user(a, user),
            }
        },
        (Top::MakeAdmin { user }, TopFact::Made) => Top::Files(Kind::Admin),
        (Top::MakeAdmin { user }, TopFact::MakeFailed) => top_user(a, user),
        (Top::MakeUser, TopFact::Made) => Top::Files(Kind::User),
        (Top::MakeUser, TopFact::MakeFailed) => Top::Refused(TopErr::CannotCreate),
        (Top::Files(k), TopFact::Made) => Top::Infos(k),
        (Top::Files(k), TopFact::MakeFailed) => Top::Refused(TopErr::Io),
        (Top::Infos(k), TopFact::Made) => Top::Take(k),
        (Top::Infos(k), TopFact::MakeFailed) => Top::Refused(TopErr::Io),
        (Top::Take(k), TopFact::TakeFailed) => Top::Refused(TopErr::Io),
        (Top::Take(k), TopFact::TakenNone) => Top::Refused(TopErr::CannotOpen),
        (Top::Take(k), TopFact::Taken { id, files }) => if id.mnt == a.mnt && id.dev == a.dev
            && files.mnt == a.mnt && files.dev == a.dev {
            Top::Ready(k)
        } else {
            Top::Refused(TopErr::OtherMount)
        },
        _ => at,
    }
}

fn take_user(a: TopArgs, user: Entry) -> (t: Top)
    ensures
        t == top_user(a, user),
{
    match user {
        Entry::Missing => Top::MakeUser,
        Entry::Dir { uid, sticky: _ } => {
            if uid != a.uid {
                Top::Refused(TopErr::Foreign)
            } else {
                Top::Files(Kind::User)
            }
        },
        Entry::Other => Top::Refused(TopErr::NotDir),
    }
}

/// Goes one step in opening or making the trash of a topdir.
pub fn topdir_trash(a: TopArgs, at: Top, f: TopFact) -> (t: Top)
    ensures
        t == topped(a, at, f),
{
    match (at, f) {
        (Top::Open, TopFact::OpenFailed) => Top::Refused(TopErr::Io),
        (Top::Open, TopFact::Opened(i)) => {
            if i.mnt != a.mnt {
                Top::Refused(TopErr::Covered)
            } else if i.dev != a.dev {
                Top::Refused(TopErr::Subvolume)
            } else {
                Top::Look
            }
        },
        (Top::Look, TopFact::Looked { admin, admin_uid, user, inside_admin, inside_user }) => {
            if inside_admin {
                return Top::Refused(TopErr::Inside(Kind::Admin));
            }
            if inside_user {
                return Top::Refused(TopErr::Inside(Kind::User));
            }
            match choose_topdir(admin, admin_uid, user, a.uid) {
                Ok(Pick::Admin { create }) => {
                    if create {
                        Top::MakeAdmin { user }
                    } else {
                        Top::Files(Kind::Admin)
                    }
                },
                _ => take_user(a, user),
            }
        },
        (Top::MakeAdmin { user: _ }, TopFact::Made) => Top::Files(Kind::Admin),
        (Top::MakeAdmin { user }, TopFact::MakeFailed) => take_user(a, user),
        (Top::MakeUser, TopFact::Made) => Top::Files(Kind::User),
        (Top::MakeUser, TopFact::MakeFailed) => Top::Refused(TopErr::CannotCreate),
        (Top::Files(k), TopFact::Made) => Top::Infos(k),
        (Top::Files(_), TopFact::MakeFailed) => Top::Refused(TopErr::Io),
        (Top::Infos(k), TopFact::Made) => Top::Take(k),
        (Top::Infos(_), TopFact::MakeFailed) => Top::Refused(TopErr::Io),
        (Top::Take(_), TopFact::TakeFailed) => Top::Refused(TopErr::Io),
        (Top::Take(_), TopFact::TakenNone) => Top::Refused(TopErr::CannotOpen),
        (Top::Take(k), TopFact::Taken { id, files }) => {
            if id.mnt == a.mnt && id.dev == a.dev && files.mnt == a.mnt && files.dev == a.dev {
                Top::Ready(k)
            } else {
                Top::Refused(TopErr::OtherMount)
            }
        },
        _ => at,
    }
}

/// The making of a topdir trash after a course of reports.
pub open spec fn top_run(a: TopArgs, facts: Seq<TopFact>) -> Top
    decreases facts.len(),
{
    if facts.len() == 0 {
        Top::Open
    } else {
        topped(a, top_run(a, facts.drop_last()), facts.last())
    }
}

/// The mount point was opened and is on the file's mount and device.
pub open spec fn top_checked(a: TopArgs, facts: Seq<TopFact>) -> bool {
    exists|i: int|
        0 <= i < facts.len() && (#[trigger] facts[i] matches TopFact::Opened(id) && id.mnt == a.mnt
            && id.dev == a.dev)
}

/// The trash directory was opened, and it and its `files/` are on the file's
/// mount and device.
pub open spec fn top_taken(a: TopArgs, facts: Seq<TopFact>) -> bool {
    exists|i: int|
        0 <= i < facts.len() && (#[trigger] facts[i] matches TopFact::Taken { id, files } && id.mnt
            == a.mnt && id.dev == a.dev && files.mnt == a.mnt && files.dev == a.dev)
}

/// Whatever the system reports, nothing is created before the mount point has
/// turned out to be on the file's own mount and device, and a trash directory
/// is used only if it lies, files and all, on that mount and device.
pub proof fn topdir_is_checked_before_anything_is_made(a: TopArgs, facts: Seq<TopFact>)
    ensures
        match top_run(a, facts) {
            Top::Open => true,
            Top::Refused(_) => true,
            Top::Ready(_) => top_checked(a, facts) && top_taken(a, facts),
            _ => top_checked(a, facts),
        },
    decreases facts.len(),
{
    if facts.len() > 0 {
        let front = facts.drop_last();
        topdir_is_checked_before_anything_is_made(a, front);
        if top_checked(a, front) {
            let i = choose|i: int|
                0 <= i < front.len() && (#[trigger] front[i] matches TopFact::Opened(id) && id.mnt
                    == a.mnt && id.dev == a.dev);
            assert(facts[i] == front[i]);
        }
        if top_taken(a, front) {
            let i = choose|i: int|
                0 <= i < front.len() && (#[trigger] front[i] matches TopFact::Taken { id, files }
                    && id.mnt == a.mnt && id.dev == a.dev && files.mnt == a.mnt && files.dev
                    == a.dev);
            assert(facts[i] == front[i]);
        }
        assert(facts[facts.len() - 1] == facts.last());
    }
}

/// A file inside a trash directory of its topdir is refused, whichever of the
/// two would be used and whether or not it could be opened: nothing is made, and
/// no trash directory taken, once it was seen to lie in one.
pub proof fn nothing_leaves_a_topdir_trash(a: TopArgs, facts: Seq<TopFact>)
    ensures
        match top_run(a, facts) {
            Top::Open => true,
            Top::Look => true,
            Top::Refused(_) => true,
            _ => exists|i: int|
                0 <= i < facts.len() && (#[trigger] facts[i] matches TopFact::Looked {
                    admin,
                    admin_uid,
                    user,
                    inside_admin,
                    inside_user,
                } && !inside_admin && !inside_user),
        },
    decreases facts.len(),
{
    if facts.len() > 0 {
        let front = facts.drop_last();
        nothing_leaves_a_topdir_trash(a, front);
        let was = top_run(a, front);
        if !(was is Open || was is Look || was is Refused) {
            let i = choose|i: int|
                0 <= i < front.len() && (#[trigger] front[i] matches TopFact::Looked {
                    admin,
                    admin_uid,
                    user,
                    inside_admin,
                    inside_user,
                } && !inside_admin && !inside_user);
            assert(facts[i] == front[i]);
        }
        assert(facts[facts.len() - 1] == facts.last());
    }
}

/// The making of a topdir trash goes on from a course of reports by one more.
proof fn top_goes_on(a: TopArgs, facts: Seq<TopFact>, f: TopFact)
    ensures
        top_run(a, facts.push(f)) == topped(a, top_run(a, facts), f),
{
    assert(facts.push(f).drop_last() =~= facts);
}

/// Where nothing stands in the way, a topdir trash is there in the end: it is
/// looked for on the file's mount and device, made if nothing is in its place,
/// given what it lacks, and opened. The one in a sticky `.Trash` is taken where
/// it can be had; where it cannot be made, `.Trash-$uid` takes its place.
pub proof fn a_topdir_trash_is_had(
    a: TopArgs,
    top: Ident,
    admin: Entry,
    admin_uid: Entry,
    user: Entry,
    id: Ident,
    files: Ident,
)
    requires
        top.mnt == a.mnt && top.dev == a.dev,
        id.mnt == a.mnt && id.dev == a.dev,
        files.mnt == a.mnt && files.dev == a.dev,
    ensures
        ({
            let begun = seq![
                TopFact::Opened(top),
                TopFact::Looked {
                    admin,
                    admin_uid,
                    user,
                    inside_admin: false,
                    inside_user: false,
                },
            ];
            let rest = seq![TopFact::Made, TopFact::Made, TopFact::Taken { id, files }];
            match pick_of(admin, admin_uid, user, a.uid) {
                Ok(Pick::Admin { create: true }) => top_run(a, begun) == (Top::MakeAdmin { user })
                    && top_run(a, begun.push(TopFact::Made) + rest) == Top::Ready(Kind::Admin) && (
                user is Missing ==> top_run(
                    a,
                    begun.push(TopFact::MakeFailed).push(TopFact::Made) + rest,
                ) == Top::Ready(Kind::User)),
                Ok(Pick::Admin { create: false }) => top_run(a, begun + rest) == Top::Ready(
                    Kind::Admin,
                ),
                Ok(Pick::User { create: true }) => top_run(a, begun) == Top::MakeUser && top_run(
                    a,
                    begun.push(TopFact::Made) + rest,
                ) == Top::Ready(Kind::User),
                Ok(Pick::User { create: false }) => top_run(a, begun + rest) == Top::Ready(
                    Kind::User,
                ),
                Err(_) => top_run(a, begun) is Refused,
            }
        }),
{
    let l = TopFact::Looked { admin, admin_uid, user, inside_admin: false, inside_user: false };
    let none = Seq::<TopFact>::empty();
    let begun = seq![TopFact::Opened(top), l];
    let rest = seq![TopFact::Made, TopFact::Made, TopFact::Taken { id, files }];
    top_goes_on(a, none, TopFact::Opened(top));
    top_goes_on(a, none.push(TopFact::Opened(top)), l);
    assert(begun =~= none.push(TopFact::Opened(top)).push(l));
    top_goes_on(a, begun, TopFact::Made);
    top_goes_on(a, begun, TopFact::MakeFailed);
    top_goes_on(a, begun.push(TopFact::MakeFailed), TopFact::Made);
    the_rest_is_made(a, begun, id, files);
    the_rest_is_made(a, begun.push(TopFact::Made), id, files);
    the_rest_is_made(a, begun.push(TopFact::MakeFailed).push(TopFact::Made), id, files);
}

proof fn the_rest_is_made(a: TopArgs, facts: Seq<TopFact>, id: Ident, files: Ident)
    requires
        id.mnt == a.mnt && id.dev == a.dev,
        files.mnt == a.mnt && files.dev == a.dev,
    ensures
        top_run(a, facts) matches Top::Files(k) ==> top_run(
            a,
            facts + seq![TopFact::Made, TopFact::Made, TopFact::Taken { id, files }],
        ) == Top::Ready(k),
{
    let f1 = facts.push(TopFact::Made);
    let f2 = f1.push(TopFact::Made);
    top_goes_on(a, facts, TopFact::Made);
    top_goes_on(a, f1, TopFact::Made);
    top_goes_on(a, f2, TopFact::Taken { id, files });
    assert(facts + seq![TopFact::Made, TopFact::Made, TopFact::Taken { id, files }] =~= f2.push(
        TopFact::Taken { id, files },
    ));
}

/// A topdir is refused for what is wrong with it: a mount point that cannot be
/// opened, is covered or on another subvolume, a file that lies in its trash, a
/// step that fails, a trash directory on another mount. What is decided stays.
pub proof fn a_topdir_is_refused_for_its_fault(a: TopArgs, facts: Seq<TopFact>, f: TopFact)
    ensures
        ({
            let next = top_run(a, facts.push(f));
            match top_run(a, facts) {
                Top::Open => match f {
                    TopFact::OpenFailed => next == Top::Refused(TopErr::Io),
                    TopFact::Opened(i) => (i.mnt != a.mnt ==> next == Top::Refused(TopErr::Covered))
                        && (i.mnt == a.mnt && i.dev != a.dev ==> next == Top::Refused(
                        TopErr::Subvolume,
                    )),
                    _ => next == Top::Open,
                },
                Top::Look => match f {
                    TopFact::Looked { admin, admin_uid, user, inside_admin, inside_user } => (
                    inside_admin ==> next == Top::Refused(TopErr::Inside(Kind::Admin))) && (
                    !inside_admin && inside_user ==> next == Top::Refused(
                        TopErr::Inside(Kind::User),
                    )),
                    _ => next == Top::Look,
                },
                Top::MakeUser => f is MakeFailed ==> next == Top::Refused(TopErr::CannotCreate),
                Top::Files(k) => f is MakeFailed ==> next == Top::Refused(TopErr::Io),
                Top::Infos(k) => f is MakeFailed ==> next == Top::Refused(TopErr::Io),
                Top::Take(k) => match f {
                    TopFact::TakeFailed => next == Top::Refused(TopErr::Io),
                    TopFact::TakenNone => next == Top::Refused(TopErr::CannotOpen),
                    TopFact::Taken { id, files } => id.mnt != a.mnt || id.dev != a.dev || files.mnt
                        != a.mnt || files.dev != a.dev ==> next == Top::Refused(TopErr::OtherMount),
                    _ => next == Top::Take(k),
                },
                Top::MakeAdmin { user } => f is MakeFailed ==> match user {
                    Entry::Missing => next == Top::MakeUser,
                    Entry::Dir { uid, sticky } => if uid == a.uid {
                        next == Top::Files(Kind::User)
                    } else {
                        next == Top::Refused(TopErr::Foreign)
                    },
                    Entry::Other => next == Top::Refused(TopErr::NotDir),
                },
                Top::Ready(k) => next == Top::Ready(k),
                Top::Refused(e) => next == Top::Refused(e),
            }
        }),
{
    top_goes_on(a, facts, f);
}

/// Why there is no topdir trash, in words. `path` is the trash directory, `io`
/// what the system said.
pub open spec fn top_text(e: TopErr, path: Seq<u8>, io: Seq<char>) -> Seq<char> {
    match e {
        TopErr::Io => io,
        TopErr::Covered => "its mount point is covered by another mount"@,
        TopErr::Subvolume => "its mount root is on another subvolume"@,
        TopErr::Foreign => "its .Trash-UID belongs to another user"@,
        TopErr::NotDir => "its .Trash-UID is not a directory"@,
        TopErr::CannotCreate => "cannot create "@ + escaped(path) + ": "@ + io,
        TopErr::CannotOpen => escaped(path) + ": could not open the trash directory"@,
        TopErr::OtherMount => escaped(path) + ": its trash directory is on another mount"@,
        TopErr::Inside(_) => inside_text(path),
    }
}

/// That a file is in the trash already.
pub open spec fn inside_text(path: Seq<u8>) -> Seq<char> {
    "it is inside the trash at "@ + escaped(path) + "; use `rip purge` to delete it"@
}

/// The lack of a topdir trash is told in words of its own for each fault: what the system said
/// is passed on, a path that is at fault is named, and of a file in a trash the way to delete it
/// is said.
pub proof fn a_missing_topdir_is_explained(e: TopErr, path: Seq<u8>, io: Seq<char>)
    ensures
        e is Io ==> top_text(e, path, io) == io,
        e is Covered ==> top_text(e, path, io) == "its mount point is covered by another mount"@,
        e is Subvolume ==> top_text(e, path, io) == "its mount root is on another subvolume"@,
        e is Foreign ==> top_text(e, path, io) == "its .Trash-UID belongs to another user"@,
        e is NotDir ==> top_text(e, path, io) == "its .Trash-UID is not a directory"@,
        e is CannotCreate ==> top_text(e, path, io) == "cannot create "@ + escaped(path) + ": "@
            + io,
        e is CannotOpen ==> top_text(e, path, io) == escaped(path)
            + ": could not open the trash directory"@,
        e is OtherMount ==> top_text(e, path, io) == escaped(path)
            + ": its trash directory is on another mount"@,
        e is Inside ==> top_text(e, path, io) == "it is inside the trash at "@ + escaped(path)
            + "; use `rip purge` to delete it"@,
        inside_text(path) == "it is inside the trash at "@ + escaped(path)
            + "; use `rip purge` to delete it"@,
{
}

fn say_inside(path: &[u8]) -> (s: String)
    ensures
        s@ == inside_text(path@),
{
    let mut s = String::from_str("it is inside the trash at ");
    s.append(escape(path).as_str());
    s.append("; use `rip purge` to delete it");
    s
}

/// Says why there is no topdir trash.
pub fn topdir_problem(e: TopErr, path: &[u8], io: &str) -> (s: String)
    ensures
        s@ == top_text(e, path@, io@),
{
    match e {
        TopErr::Io => io.to_owned(),
        TopErr::Covered => "its mount point is covered by another mount".to_owned(),
        TopErr::Subvolume => "its mount root is on another subvolume".to_owned(),
        TopErr::Foreign => "its .Trash-UID belongs to another user".to_owned(),
        TopErr::NotDir => "its .Trash-UID is not a directory".to_owned(),
        TopErr::CannotCreate => {
            let mut s = String::from_str("cannot create ");
            s.append(escape(path).as_str());
            s.append(": ");
            s.append(io);
            s
        },
        TopErr::CannotOpen => {
            let mut s = escape(path);
            s.append(": could not open the trash directory");
            s
        },
        TopErr::OtherMount => {
            let mut s = escape(path);
            s.append(": its trash directory is on another mount");
            s
        },
        TopErr::Inside(_) => say_inside(path),
    }
}

/// What is said of a `.Trash` that is there and is not used.
pub open spec fn admin_text(admin: Entry, path: Seq<u8>) -> Option<Seq<char>> {
    if admin is Missing || sticky_dir(admin) {
        None
    } else {
        Some(escaped(path) + " is not a sticky directory; not using it"@)
    }
}

/// Of a `.Trash` something is said just where it is there and is not a directory with the sticky
/// bit, and then its path is named.
pub proof fn an_unused_admin_trash_is_named(admin: Entry, path: Seq<u8>)
    ensures
        admin is Missing || sticky_dir(admin) ==> admin_text(admin, path) is None,
        !(admin is Missing) && !sticky_dir(admin) ==> admin_text(admin, path) == Some(
            escaped(path) + " is not a sticky directory; not using it"@,
        ),
{
}

/// Tells what to say of `.Trash`, if anything.
pub fn admin_notice(admin: Entry, path: &[u8]) -> (r: Option<String>)
    ensures
        match r {
            Some(s) => admin_text(admin, path@) == Some(s@),
            None => admin_text(admin, path@) is None,
        },
{
    match admin {
        Entry::Missing => None,
        Entry::Dir { uid: _, sticky: true } => None,
        _ => {
            let mut s = escape(path);
            s.append(" is not a sticky directory; not using it");
            Some(s)
        },
    }
}

/// What is said where `.Trash/$uid` could not be made: `.Trash-$uid` is tried in
/// its place.
pub fn admin_failure(path: &[u8], io: &str, user: &[u8]) -> (s: String)
    ensures
        s@ == "cannot create "@ + escaped(path@) + ": "@ + io@ + "; using "@ + escaped(user@),
{
    let mut s = String::from_str("cannot create ");
    s.append(escape(path).as_str());
    s.append(": ");
    s.append(io);
    s.append("; using ");
    s.append(escape(user).as_str());
    s
}

// ---------------------------------------------------------------------------
// Operands
// ---------------------------------------------------------------------------

/// Why an operand was not trashed. `not_found`: there is no such file, which
/// `-f` passes over.
#[derive(Debug)]
pub struct PutErr {
    pub msg: String,
    pub not_found: bool,
}

impl View for PutErr {
    type V = (Seq<char>, bool);

    open spec fn view(&self) -> (Seq<char>, bool) {
        (self.msg@, self.not_found)
    }
}

/// That there is no such file.
pub fn not_found(msg: &str) -> (e: PutErr)
    ensures
        e@ == (msg@, true),
{
    PutErr { msg: msg.to_owned(), not_found: true }
}

fn refused(msg: &str) -> (e: PutErr)
    ensures
        e@ == (msg@, false),
{
    PutErr { msg: msg.to_owned(), not_found: false }
}

/// An error of the system. A missing file, and a path that leads through
/// something that is not a directory, count as not found, as `rm -f` has it.
pub fn io_error(errno: Option<i32>, text: &str) -> (e: PutErr)
    ensures
        e@ == (text@, errno == Some(ENOENT) || errno == Some(ENOTDIR)),
{
    let missing = match errno {
        Some(n) => n == ENOENT || n == ENOTDIR,
        None => false,
    };
    PutErr { msg: text.to_owned(), not_found: missing }
}

/// `s` without slashes at its end.
pub open spec fn without_slashes(s: Seq<u8>) -> Seq<u8>
    decreases s.len(),
{
    if s.len() > 0 && s.last() == 0x2f {
        without_slashes(s.drop_last())
    } else {
        s
    }
}

/// The parent directory, the name and whether a slash follows, or why the
/// operand is refused.
pub open spec fn arg_of(arg: Seq<u8>) -> Result<(Seq<u8>, Seq<u8>, bool), (Seq<char>, bool)> {
    let t = without_slashes(arg);
    let last = split_on(t, 0x2f).last();
    let parent = if last.len() == t.len() {
        seq![0x2eu8]
    } else if last.len() + 1 == t.len() {
        seq![0x2fu8]
    } else {
        t.take(t.len() - last.len() - 1)
    };
    if arg.len() == 0 {
        Err(("No such file or directory"@, true))
    } else if t.len() == 0 {
        Err(("'/': refusing to trash the root directory"@, false))
    } else if last == seq![0x2eu8] || last == seq![0x2eu8, 0x2eu8] {
        Err(("'"@ + escaped(t) + "': refusing to trash '.' or '..'"@, false))
    } else {
        Ok((parent, last, t.len() < arg.len()))
    }
}

/// What splitting an operand came to.
pub open spec fn arg_view(r: Result<(Vec<u8>, Vec<u8>, bool), PutErr>) -> Result<
    (Seq<u8>, Seq<u8>, bool),
    (Seq<char>, bool),
> {
    match r {
        Ok(x) => Ok((x.0@, x.1@, x.2)),
        Err(e) => Err(e@),
    }
}

/// What comes of an operand is read part by part: the directory, the name and whether it ended in
/// a slash, or the message and whether the file is missing.
pub proof fn an_operand_is_read_part_by_part(r: Result<(Vec<u8>, Vec<u8>, bool), PutErr>)
    ensures
        r matches Ok(x) ==> arg_view(r) == Ok::<(Seq<u8>, Seq<u8>, bool), (Seq<char>, bool)>(
            (x.0@, x.1@, x.2),
        ),
        r matches Err(e) ==> arg_view(r) == Err::<(Seq<u8>, Seq<u8>, bool), (Seq<char>, bool)>(
            (e.msg@, e.not_found),
        ),
{
}

proof fn what_follows_the_last_slash(t: Seq<u8>, from: int)
    requires
        0 <= from <= t.len(),
        from == 0 || t[from - 1] == 0x2f,
        forall|k: int| from <= k < t.len() ==> t[k] != 0x2f,
    ensures
        split_on(t, 0x2f).last() == t.skip(from),
{
    let head = t.take(from);
    let last = t.skip(from);
    assert(t =~= head + last);
    split_plus(head, last, 0x2f);
    if from == 0 {
        assert(head =~= Seq::<u8>::empty());
        assert(split_on(head, 0x2f).last() =~= Seq::<u8>::empty());
    } else {
        assert(head.last() == t[from - 1]);
        split_then_join(head.drop_last(), 0x2f);
        assert(split_on(head, 0x2f).last() =~= Seq::<u8>::empty());
    }
    assert(Seq::<u8>::empty() + last =~= last);
}

/// Splits an operand into its parent directory, its name and whether a slash
/// follows. An empty operand does not exist; `/`, `.` and `..` are refused, also
/// at the end of a longer path.
pub fn split_arg(arg: &[u8]) -> (r: Result<(Vec<u8>, Vec<u8>, bool), PutErr>)
    ensures
        arg_view(r) == arg_of(arg@),
{
    if arg.len() == 0 {
        return Err(not_found("No such file or directory"));
    }
    let mut end: usize = arg.len();
    assert(arg@.take(end as int) =~= arg@);
    while end > 0 && arg[end - 1] == 0x2f
        invariant
            end <= arg.len(),
            without_slashes(arg@) == without_slashes(arg@.take(end as int)),
        decreases end,
    {
        assert(arg@.take(end as int).drop_last() =~= arg@.take(end - 1));
        end = end - 1;
    }
    let ghost t = arg@.take(end as int);
    assert(without_slashes(arg@) == t) by {
        if end > 0 {
            assert(t.last() == arg@[end - 1]);
        }
    }
    if end == 0 {
        return Err(refused("'/': refusing to trash the root directory"));
    }
    let trimmed = slice_subrange(arg, 0, end);
    assert(trimmed@ =~= t);
    let mut from: usize = end;
    while from > 0 && trimmed[from - 1] != 0x2f
        invariant
            from <= end,
            trimmed@.len() == end,
            trimmed@ == t,
            forall|k: int| from <= k < end ==> t[k] != 0x2f,
        decreases from,
    {
        from = from - 1;
    }
    let last = slice_subrange(trimmed, from, end);
    assert(last@ =~= t.skip(from as int));
    proof {
        what_follows_the_last_slash(t, from as int);
    }
    let mut dot: Vec<u8> = Vec::new();
    dot.push(0x2e);
    assert(dot@ =~= seq![0x2eu8]);
    let is_dot = same(last, dot.as_slice());
    let mut dots: Vec<u8> = Vec::new();
    dots.push(0x2e);
    dots.push(0x2e);
    assert(dots@ =~= seq![0x2eu8, 0x2eu8]);
    if is_dot || same(last, dots.as_slice()) {
        let mut msg = String::from_str("'");
        msg.append(escape(trimmed).as_str());
        msg.append("': refusing to trash '.' or '..'");
        return Err(PutErr { msg, not_found: false });
    }
    let parent = if from == 0 {
        dot
    } else if from == 1 {
        let mut root: Vec<u8> = Vec::new();
        root.push(0x2f);
        assert(root@ =~= seq![0x2fu8]);
        root
    } else {
        let p = slice_subrange(trimmed, 0, from - 1);
        assert(p@ =~= t.take(from - 1));
        copy(p)
    };
    Ok((parent, copy(last), end != arg.len()))
}

/// An operand that is taken apart names the same file: a name without slashes
/// that is neither `.` nor `..`, in the directory before it. Put together, the
/// parts are the operand without slashes at its end.
pub proof fn split_names_a_file(arg: Seq<u8>)
    ensures
        arg_of(arg) matches Ok((parent, name, slash)) ==> {
            let t = without_slashes(arg);
            &&& name.len() > 0 && !name.contains(0x2f)
            &&& name != seq![0x2eu8] && name != seq![0x2eu8, 0x2eu8]
            &&& (parent == seq![0x2eu8] && t == name) || (parent == seq![0x2fu8] && t == parent
                + name) || t == parent.push(0x2f) + name
            &&& slash == (t != arg)
        },
{
    let t = without_slashes(arg);
    split_then_join(t, 0x2f);
    let p = split_on(t, 0x2f);
    assert(!p[p.len() - 1].contains(0x2f));
    if arg_of(arg) is Ok {
        no_slash_at_end(arg);
        slashes_only_go(arg);
        if p.last().len() == 0 {
            ends_with_last_piece(t, 0x2f);
        }
        if p.len() > 1 {
            let head = join_with(p.drop_last(), 0x2f);
            assert(t == head.push(0x2f) + p.last());
            assert(t.take(head.len() as int) =~= head);
            if head.len() == 0 {
                assert(head.push(0x2f) =~= seq![0x2fu8]);
            }
        }
    }
}

/// Whatever names a file is taken apart, however its directory is written and
/// however many slashes follow: a name without slashes, neither `.` nor `..`, by
/// itself, under the root, or in a directory.
pub proof fn what_names_a_file_is_split(dir: Seq<u8>, name: Seq<u8>, slashes: nat)
    requires
        name.len() > 0,
        !name.contains(0x2f),
    ensures
        ({
            let tail = Seq::new(slashes, |i: int| 0x2fu8);
            let bad = name == seq![0x2eu8] || name == seq![0x2eu8, 0x2eu8];
            let alone = arg_of(name + tail);
            let rooted = arg_of(seq![0x2fu8] + name + tail);
            let inner = arg_of(dir.push(0x2f) + name + tail);
            &&& !bad ==> alone == Ok::<(Seq<u8>, Seq<u8>, bool), (Seq<char>, bool)>(
                (seq![0x2eu8], name, slashes > 0),
            )
            &&& !bad ==> rooted == Ok::<(Seq<u8>, Seq<u8>, bool), (Seq<char>, bool)>(
                (seq![0x2fu8], name, slashes > 0),
            )
            &&& !bad && dir.len() > 0 ==> inner == Ok::<
                (Seq<u8>, Seq<u8>, bool),
                (Seq<char>, bool),
            >((dir, name, slashes > 0))
            &&& bad ==> alone is Err && rooted is Err && inner is Err
        }),
        arg_of(Seq::<u8>::empty()) == Err::<(Seq<u8>, Seq<u8>, bool), (Seq<char>, bool)>(
            ("No such file or directory"@, true),
        ),
        slashes > 0 ==> arg_of(Seq::new(slashes, |i: int| 0x2fu8)) == Err::<
            (Seq<u8>, Seq<u8>, bool),
            (Seq<char>, bool),
        >(("'/': refusing to trash the root directory"@, false)),
{
    let tail = Seq::new(slashes, |i: int| 0x2fu8);
    let none = Seq::<u8>::empty();
    slashes_go(none, slashes);
    assert(none + tail =~= tail);
    assert(name.last() != 0x2f) by {
        assert(name.contains(name[name.len() - 1]));
    }
    split_plus(none, name, 0x2f);
    assert(none + name =~= name);
    assert(split_on(name, 0x2f) =~= seq![name]);
    slashes_go(name, slashes);
    let r = seq![0x2fu8];
    assert(r =~= none.push(0x2f));
    last_behind_slash(none, name);
    slashes_go(r + name, slashes);
    last_behind_slash(dir, name);
    slashes_go(dir.push(0x2f) + name, slashes);
    let t = dir.push(0x2f) + name;
    assert(t.take(t.len() - name.len() - 1) =~= dir);
}

proof fn slashes_go(s: Seq<u8>, n: nat)
    requires
        s.len() > 0 ==> s.last() != 0x2f,
    ensures
        without_slashes(s + Seq::new(n, |i: int| 0x2fu8)) == s,
    decreases n,
{
    let t = s + Seq::new(n, |i: int| 0x2fu8);
    if n == 0 {
        assert(t =~= s);
    } else {
        assert(t.last() == 0x2f);
        assert(t.drop_last() =~= s + Seq::new((n - 1) as nat, |i: int| 0x2fu8));
        slashes_go(s, (n - 1) as nat);
    }
}

proof fn last_behind_slash(dir: Seq<u8>, name: Seq<u8>)
    requires
        !name.contains(0x2f),
    ensures
        split_on(dir.push(0x2f) + name, 0x2f).last() == name,
{
    split_plus(dir.push(0x2f), name, 0x2f);
    split_then_join(dir, 0x2f);
    assert(dir.push(0x2f).drop_last() =~= dir);
    assert(split_on(dir.push(0x2f), 0x2f).last() =~= Seq::<u8>::empty());
    assert(Seq::<u8>::empty() + name =~= name);
}

proof fn slashes_only_go(s: Seq<u8>)
    ensures
        without_slashes(s).len() <= s.len(),
        without_slashes(s).len() == s.len() ==> without_slashes(s) == s,
    decreases s.len(),
{
    if s.len() > 0 && s.last() == 0x2f {
        slashes_only_go(s.drop_last());
    }
}

proof fn no_slash_at_end(s: Seq<u8>)
    ensures
        without_slashes(s).len() > 0 ==> without_slashes(s).last() != 0x2f,
    decreases s.len(),
{
    if s.len() > 0 && s.last() == 0x2f {
        no_slash_at_end(s.drop_last());
    }
}

proof fn ends_with_last_piece(s: Seq<u8>, sep: u8)
    requires
        s.len() > 0,
        split_on(s, sep).last().len() == 0,
    ensures
        s.last() == sep,
{
    split_then_join(s.drop_last(), sep);
}

// ---------------------------------------------------------------------------
// Refusals
// ---------------------------------------------------------------------------

/// Where trash directories are, and what each is.
pub open spec fn spots_of(ts: Seq<TrashView>) -> Seq<(Seq<u8>, Ident)> {
    Seq::new(ts.len(), |i: int| (ts[i].path, ts[i].id))
}

/// The first of these directories with one of these identities, identity by
/// identity.
pub open spec fn spot_among(spots: Seq<(Seq<u8>, Ident)>, ids: Seq<Ident>) -> Option<Seq<u8>>
    decreases ids.len(),
{
    if ids.len() == 0 {
        None
    } else {
        match spot_with(spots, ids[0]) {
            Some(p) => Some(p),
            None => spot_among(spots, ids.skip(1)),
        }
    }
}

/// The first of these directories with this identity.
pub open spec fn spot_with(spots: Seq<(Seq<u8>, Ident)>, id: Ident) -> Option<Seq<u8>>
    decreases spots.len(),
{
    if spots.len() == 0 {
        None
    } else if one_file(spots[0].1, id) {
        Some(spots[0].0)
    } else {
        spot_with(spots.skip(1), id)
    }
}

/// No directory is found among identities just where none has any of them.
pub proof fn outside_all_spots(spots: Seq<(Seq<u8>, Ident)>, ids: Seq<Ident>)
    requires
        spot_among(spots, ids) is None,
    ensures
        forall|i: int, j: int|
            #![trigger spots[i], ids[j]]
            0 <= i < spots.len() && 0 <= j < ids.len() ==> !one_file(spots[i].1, ids[j]),
    decreases ids.len(),
{
    if ids.len() > 0 {
        outside_all_spots(spots, ids.skip(1));
        no_spot_is(spots, ids[0]);
        assert forall|i: int, j: int|
            #![trigger spots[i], ids[j]]
            0 <= i < spots.len() && 0 <= j < ids.len() implies !one_file(spots[i].1, ids[j]) by {
            if j > 0 {
                assert(ids.skip(1)[j - 1] == ids[j]);
            }
        }
    }
}

proof fn no_spot_is(spots: Seq<(Seq<u8>, Ident)>, id: Ident)
    requires
        spot_with(spots, id) is None,
    ensures
        forall|i: int| 0 <= i < spots.len() ==> !one_file((#[trigger] spots[i]).1, id),
    decreases spots.len(),
{
    if spots.len() > 0 {
        no_spot_is(spots.skip(1), id);
        assert forall|i: int| 0 <= i < spots.len() implies !one_file(
            (#[trigger] spots[i]).1,
            id,
        ) by {
            if i > 0 {
                assert(spots.skip(1)[i - 1] == spots[i]);
            }
        }
    }
}

fn find_trash(ts: &Vec<Trash>, id: Ident) -> (r: Option<usize>)
    ensures
        match r {
            Some(i) => i < ts@.len() && spot_with(spots_of(trash_views(ts@)), id) == Some(
                ts@[i as int].path@,
            ),
            None => spot_with(spots_of(trash_views(ts@)), id) is None,
        },
{
    let ghost v = spots_of(trash_views(ts@));
    let mut i: usize = 0;
    assert(v.skip(0) =~= v);
    while i < ts.len()
        invariant
            i <= ts.len(),
            v == spots_of(trash_views(ts@)),
            spot_with(v, id) == spot_with(v.skip(i as int), id),
        decreases ts.len() - i,
    {
        assert(v.skip(i as int)[0] == (ts@[i as int].path@, ts@[i as int].id));
        assert(v.skip(i as int).skip(1) =~= v.skip(i + 1));
        if ts[i].id.same_file(&id) {
            return Some(i);
        }
        i = i + 1;
    }
    None
}

/// The trash directory that a file is in, or is: `ids` are the file and the
/// directories above it, the nearest first.
pub fn inside_trash(ts: &Vec<Trash>, ids: &Vec<Ident>) -> (r: Option<usize>)
    ensures
        match r {
            Some(i) => i < ts@.len() && spot_among(spots_of(trash_views(ts@)), ids@) == Some(
                ts@[i as int].path@,
            ),
            None => spot_among(spots_of(trash_views(ts@)), ids@) is None,
        },
{
    let ghost v = spots_of(trash_views(ts@));
    let mut i: usize = 0;
    assert(ids@.skip(0) =~= ids@);
    while i < ids.len()
        invariant
            i <= ids.len(),
            v == spots_of(trash_views(ts@)),
            spot_among(v, ids@) == spot_among(v, ids@.skip(i as int)),
        decreases ids.len() - i,
    {
        assert(ids@.skip(i as int).skip(1) =~= ids@.skip(i + 1));
        if let Some(t) = find_trash(ts, ids[i]) {
            return Some(t);
        }
        i = i + 1;
    }
    None
}

fn find_skipped(sk: &Vec<Skipped>, id: Ident) -> (r: Option<usize>)
    ensures
        match r {
            Some(i) => i < sk@.len() && spot_with(skipped_views(sk@), id) == Some(
                sk@[i as int].path@,
            ),
            None => spot_with(skipped_views(sk@), id) is None,
        },
{
    let ghost v = skipped_views(sk@);
    let mut i: usize = 0;
    assert(v.skip(0) =~= v);
    while i < sk.len()
        invariant
            i <= sk.len(),
            v == skipped_views(sk@),
            spot_with(v, id) == spot_with(v.skip(i as int), id),
        decreases sk.len() - i,
    {
        assert(v.skip(i as int)[0] == (sk@[i as int].path@, sk@[i as int].id));
        assert(v.skip(i as int).skip(1) =~= v.skip(i + 1));
        if sk[i].id.same_file(&id) {
            return Some(i);
        }
        i = i + 1;
    }
    None
}

/// The skipped trash directory that a file is in, or is.
pub fn inside_skipped(sk: &Vec<Skipped>, ids: &Vec<Ident>) -> (r: Option<usize>)
    ensures
        match r {
            Some(i) => i < sk@.len() && spot_among(skipped_views(sk@), ids@) == Some(
                sk@[i as int].path@,
            ),
            None => spot_among(skipped_views(sk@), ids@) is None,
        },
{
    let ghost v = skipped_views(sk@);
    let mut i: usize = 0;
    assert(ids@.skip(0) =~= ids@);
    while i < ids.len()
        invariant
            i <= ids.len(),
            v == skipped_views(sk@),
            spot_among(v, ids@) == spot_among(v, ids@.skip(i as int)),
        decreases ids.len() - i,
    {
        assert(ids@.skip(i as int).skip(1) =~= ids@.skip(i + 1));
        if let Some(t) = find_skipped(sk, ids[i]) {
            return Some(t);
        }
        i = i + 1;
    }
    None
}

/// Whether a file is, or lies inside, what is at some place: `ids` are the file
/// and the directories above it.
pub fn lies_inside(at: Option<Ident>, ids: &Vec<Ident>) -> (r: bool)
    ensures
        r <==> at is Some && exists|i: int|
            0 <= i < ids@.len() && one_file(#[trigger] ids@[i], at->0),
{
    let id = match at {
        None => return false,
        Some(id) => id,
    };
    let mut i: usize = 0;
    while i < ids.len()
        invariant
            i <= ids.len(),
            at == Some(id),
            forall|k: int| 0 <= k < i ==> !one_file(#[trigger] ids@[k], id),
        decreases ids.len() - i,
    {
        if ids[i].same_file(&id) {
            return true;
        }
        i = i + 1;
    }
    false
}

/// Whether the directory that was opened is no longer what its path leads to:
/// `now` is what is there, `then` what was opened.
pub fn parent_moved(now: Option<Ident>, then: Ident) -> (r: bool)
    ensures
        r == (now != Some(then)),
{
    match now {
        Some(id) => id != then,
        None => true,
    }
}

/// The trash directory lies in `path`, as the paths are written or inside the
/// filesystem.
pub open spec fn trash_below(
    t: TrashView,
    ms: Seq<MountView>,
    own: MountView,
    path: Seq<u8>,
) -> bool {
    under(comps(t.path), comps(path)) || (match (inside_of(own, path), first_with(ms, t.id.mnt)) {
        (Some(p), Some(tm)) => tm.fs == own.fs && (match inside_of(tm, t.path) {
            Some(tp) => under(comps(tp), comps(p)),
            None => false,
        }),
        _ => false,
    })
}

/// The first trash directory that lies in `path`.
pub open spec fn first_below(
    ts: Seq<TrashView>,
    ms: Seq<MountView>,
    own: MountView,
    path: Seq<u8>,
) -> Option<Seq<u8>>
    decreases ts.len(),
{
    if ts.len() == 0 {
        None
    } else if trash_below(ts[0], ms, own, path) {
        Some(ts[0].path)
    } else {
        first_below(ts.skip(1), ms, own, path)
    }
}

fn is_below(t: &Trash, ms: &Mounts, own: &Mount, path: &[u8]) -> (r: bool)
    ensures
        r == trash_below(t@, ms@, own@, path@),
{
    if starts_with(t.path.as_slice(), path) {
        return true;
    }
    if let Some(p) = inside(own, path) {
        if let Some(tm) = ms.by_id(t.id.mnt) {
            if tm.fs == own.fs {
                if let Some(tp) = inside(tm, t.path.as_slice()) {
                    return starts_with(tp.as_slice(), p.as_slice());
                }
            }
        }
    }
    false
}

/// A trash directory that lies in `path`. Paths inside the filesystem are
/// compared too, so that one reached through another mount is noticed.
pub fn contains_trash(ts: &Vec<Trash>, ms: &Mounts, own: &Mount, path: &[u8]) -> (r: Option<usize>)
    ensures
        match r {
            Some(i) => i < ts@.len() && first_below(trash_views(ts@), ms@, own@, path@) == Some(
                ts@[i as int].path@,
            ),
            None => first_below(trash_views(ts@), ms@, own@, path@) is None,
        },
{
    let ghost v = trash_views(ts@);
    let mut i: usize = 0;
    assert(v.skip(0) =~= v);
    while i < ts.len()
        invariant
            i <= ts.len(),
            v == trash_views(ts@),
            first_below(v, ms@, own@, path@) == first_below(v.skip(i as int), ms@, own@, path@),
        decreases ts.len() - i,
    {
        assert(v.skip(i as int)[0] == ts@[i as int]@);
        assert(v.skip(i as int).skip(1) =~= v.skip(i + 1));
        if is_below(&ts[i], ms, own, path) {
            return Some(i);
        }
        i = i + 1;
    }
    None
}

/// The filesystem a file is on, or why the file is not trashed. `sk` are the
/// trash directories that were skipped.
pub open spec fn admitted(
    ms: Seq<MountView>,
    ts: Seq<TrashView>,
    sk: Seq<(Seq<u8>, Ident)>,
    st: Meta,
    slash: bool,
    path: Seq<u8>,
    ids: Seq<Ident>,
) -> Result<FsId, Seq<char>> {
    if slash && !st.dir() {
        if st.link() {
            Err("'X/' names a symbolic link; to trash the link, drop the trailing '/'"@)
        } else {
            Err("Not a directory"@)
        }
    } else {
        match first_with(ms, st.id.mnt) {
            None => Err("its mount is not in /proc/self/mountinfo"@),
            Some(own) => if own.ro {
                Err("its filesystem is read-only"@)
            } else {
                match conflict_of(ms, own, path, st.attrs.mount_root) {
                    Some(why) => Err("it "@ + why + "; not trashing it"@),
                    None => match (
                        spot_among(spots_of(ts), ids),
                        spot_among(sk, ids),
                        first_below(ts, ms, own, path),
                    ) {
                        (Some(t), _, _) => Err(inside_text(t)),
                        (None, Some(t), _) => Err(inside_text(t)),
                        (None, None, Some(t)) => Err(
                            "it contains the trash directory "@ + escaped(t),
                        ),
                        (None, None, None) => Ok(own.fs),
                    },
                }
            },
        }
    }
}

/// Checks whether a file may be trashed: what `lstat` said of it, whether a
/// slash followed its name, its path in this namespace, and the identities of
/// the file and of the directories above it.
pub fn check_operand(
    ms: &Mounts,
    ts: &Vec<Trash>,
    sk: &Vec<Skipped>,
    st: &Meta,
    slash: bool,
    path: &[u8],
    ids: &Vec<Ident>,
) -> (r: Result<FsId, PutErr>)
    ensures
        match r {
            Ok(fs) => admitted(ms@, trash_views(ts@), skipped_views(sk@), *st, slash, path@, ids@) == Ok::<
                FsId,
                Seq<char>,
            >(fs),
            Err(e) => admitted(ms@, trash_views(ts@), skipped_views(sk@), *st, slash, path@, ids@) == Err::<
                FsId,
                Seq<char>,
            >(e.msg@) && !e.not_found,
        },
{
    if slash && !st.is_dir() {
        if st.is_symlink() {
            return Err(
                refused("'X/' names a symbolic link; to trash the link, drop the trailing '/'"),
            );
        }
        return Err(refused("Not a directory"));
    }
    let own = match ms.by_id(st.id.mnt) {
        None => return Err(refused("its mount is not in /proc/self/mountinfo")),
        Some(m) => m,
    };
    if own.ro {
        return Err(refused("its filesystem is read-only"));
    }
    if let Some(why) = mount_conflict(ms, own, path, st.is_mount_root()) {
        let mut msg = String::from_str("it ");
        msg.append(why.as_str());
        msg.append("; not trashing it");
        return Err(PutErr { msg, not_found: false });
    }
    if let Some(i) = inside_trash(ts, ids) {
        return Err(PutErr { msg: say_inside(ts[i].path.as_slice()), not_found: false });
    }
    if let Some(i) = inside_skipped(sk, ids) {
        return Err(PutErr { msg: say_inside(sk[i].path.as_slice()), not_found: false });
    }
    if let Some(i) = contains_trash(ts, ms, own, path) {
        let mut msg = String::from_str("it contains the trash directory ");
        msg.append(escape(ts[i].path.as_slice()).as_str());
        return Err(PutErr { msg, not_found: false });
    }
    Ok(own.fs)
}

/// A file on a read-only mount, a mount point, what a mount comes from or lies
/// in, anything in a trash, a skipped one too, and what a trash lies in is never
/// admitted.
pub proof fn refusals_hold(
    ms: Seq<MountView>,
    ts: Seq<TrashView>,
    sk: Seq<(Seq<u8>, Ident)>,
    st: Meta,
    slash: bool,
    path: Seq<u8>,
    ids: Seq<Ident>,
)
    requires
        admitted(ms, ts, sk, st, slash, path, ids) is Ok,
    ensures
        first_with(ms, st.id.mnt) matches Some(own) && !own.ro && comps(path) != comps(own.point)
            && conflict_of(ms, own, path, st.attrs.mount_root) is None && first_below(
            ts,
            ms,
            own,
            path,
        ) is None,
        !st.attrs.mount_root,
        forall|i: int, j: int|
            #![trigger ts[i], ids[j]]
            0 <= i < ts.len() && 0 <= j < ids.len() ==> !one_file(ts[i].id, ids[j]),
        forall|i: int, j: int|
            #![trigger sk[i], ids[j]]
            0 <= i < sk.len() && 0 <= j < ids.len() ==> !one_file(sk[i].1, ids[j]),
        slash ==> st.dir(),
{
    outside_all_spots(spots_of(ts), ids);
    outside_all_spots(sk, ids);
    assert forall|i: int, j: int|
        #![trigger ts[i], ids[j]]
        0 <= i < ts.len() && 0 <= j < ids.len() implies !one_file(ts[i].id, ids[j]) by {
        assert(spots_of(ts)[i] == (ts[i].path, ts[i].id));
    }
}

proof fn no_spot_among(spots: Seq<(Seq<u8>, Ident)>, ids: Seq<Ident>)
    requires
        forall|i: int, j: int|
            #![trigger spots[i], ids[j]]
            0 <= i < spots.len() && 0 <= j < ids.len() ==> !one_file(spots[i].1, ids[j]),
    ensures
        spot_among(spots, ids) is None,
    decreases ids.len(),
{
    if ids.len() > 0 {
        let rest = ids.skip(1);
        assert forall|i: int, j: int|
            #![trigger spots[i], rest[j]]
            0 <= i < spots.len() && 0 <= j < rest.len() implies !one_file(spots[i].1, rest[j]) by {
            assert(rest[j] == ids[j + 1]);
        }
        no_spot_among(spots, rest);
        no_spot_with(spots, ids[0]);
    }
}

proof fn no_spot_with(spots: Seq<(Seq<u8>, Ident)>, id: Ident)
    requires
        forall|i: int| 0 <= i < spots.len() ==> !one_file((#[trigger] spots[i]).1, id),
    ensures
        spot_with(spots, id) is None,
    decreases spots.len(),
{
    if spots.len() > 0 {
        let rest = spots.skip(1);
        assert forall|i: int| 0 <= i < rest.len() implies !one_file((#[trigger] rest[i]).1, id) by {
            assert(rest[i] == spots[i + 1]);
        }
        no_spot_with(rest, id);
    }
}

proof fn first_below_is_one(ts: Seq<TrashView>, ms: Seq<MountView>, own: MountView, path: Seq<u8>)
    ensures
        first_below(ts, ms, own, path) is None <==> forall|i: int|
            0 <= i < ts.len() ==> !trash_below(#[trigger] ts[i], ms, own, path),
        first_below(ts, ms, own, path) matches Some(p) ==> exists|i: int|
            0 <= i < ts.len() && (#[trigger] ts[i]).path == p && trash_below(ts[i], ms, own, path),
    decreases ts.len(),
{
    if ts.len() > 0 {
        let rest = ts.skip(1);
        first_below_is_one(rest, ms, own, path);
        assert forall|i: int| 0 < i < ts.len() implies #[trigger] ts[i] == rest[i - 1] by {
        }
        if trash_below(ts[0], ms, own, path) {
            assert(ts[0].path == first_below(ts, ms, own, path)->0);
        } else if first_below(rest, ms, own, path) is None {
            assert forall|i: int| 0 <= i < ts.len() implies !trash_below(
                #[trigger] ts[i],
                ms,
                own,
                path,
            ) by {
                if i > 0 {
                    assert(rest[i - 1] == ts[i]);
                }
            }
        } else {
            let p = first_below(rest, ms, own, path)->0;
            let i = choose|i: int|
                0 <= i < rest.len() && (#[trigger] rest[i]).path == p && trash_below(
                    rest[i],
                    ms,
                    own,
                    path,
                );
            assert(ts[i + 1] == rest[i]);
        }
    }
}

/// A file is admitted just where nothing speaks against it, whatever it is, a
/// directory with all that is in it too: its mount can be written to, it is no
/// mount point, no mount comes from it or lies in it, it is in no trash
/// directory, no trash directory is in it, and a slash follows only a directory.
/// It is then on the filesystem of its mount, the first with its id.
pub proof fn what_nothing_forbids_is_admitted(
    ms: Seq<MountView>,
    ts: Seq<TrashView>,
    sk: Seq<(Seq<u8>, Ident)>,
    st: Meta,
    slash: bool,
    path: Seq<u8>,
    ids: Seq<Ident>,
    k: int,
)
    requires
        0 <= k < ms.len(),
        ms[k].id == st.id.mnt,
        forall|j: int| 0 <= j < k ==> (#[trigger] ms[j]).id != st.id.mnt,
    ensures
        admitted(ms, ts, sk, st, slash, path, ids) is Ok ==> admitted(
            ms,
            ts,
            sk,
            st,
            slash,
            path,
            ids,
        ) == Ok::<FsId, Seq<char>>(ms[k].fs),
        admitted(ms, ts, sk, st, slash, path, ids) is Ok <==> {
            &&& slash ==> st.mode & 0xf000 == 0x4000
            &&& !ms[k].ro
            &&& !st.attrs.mount_root
            &&& comps(path) != comps(ms[k].point)
            &&& forall|i: int|
                0 <= i < ms.len() && inside_of(ms[k], path) is Some ==> ({
                    let p = comps(inside_of(ms[k], path)->0);
                    !((#[trigger] ms[i]).fs == ms[k].fs && ms[i].id != ms[k].id && under(
                        comps(ms[i].root),
                        p,
                    )) && !(ms[i].under is Some && (ms[i].under->0).0 == ms[k].fs && under(
                        comps((ms[i].under->0).1),
                        p,
                    ))
                })
            &&& forall|i: int, j: int|
                #![trigger ts[i], ids[j]]
                0 <= i < ts.len() && 0 <= j < ids.len() ==> !(ts[i].id.dev == ids[j].dev
                    && ts[i].id.ino == ids[j].ino)
            &&& forall|i: int, j: int|
                #![trigger sk[i], ids[j]]
                0 <= i < sk.len() && 0 <= j < ids.len() ==> !(sk[i].1.dev == ids[j].dev
                    && sk[i].1.ino == ids[j].ino)
            &&& forall|i: int|
                0 <= i < ts.len() ==> !under(comps((#[trigger] ts[i]).path), comps(path))
            &&& forall|i: int|
                0 <= i < ts.len() && inside_of(ms[k], path) is Some && first_with(
                    ms,
                    (#[trigger] ts[i]).id.mnt,
                ) is Some ==> ({
                    let tm = first_with(ms, ts[i].id.mnt)->0;
                    !(tm.fs == ms[k].fs && inside_of(tm, ts[i].path) is Some && under(
                        comps(inside_of(tm, ts[i].path)->0),
                        comps(inside_of(ms[k], path)->0),
                    ))
                })
        },
{
    the_first_with_an_id_is_found(ms, st.id.mnt);
    let own = first_with(ms, st.id.mnt)->0;
    let at = choose|i: int|
        0 <= i < ms.len() && #[trigger] ms[i] == own && own.id == st.id.mnt && (forall|j: int|
            0 <= j < i ==> (#[trigger] ms[j]).id != st.id.mnt);
    assert(ms[at].id == st.id.mnt && ms[k].id == st.id.mnt);
    assert(own == ms[k]);
    a_conflict_has_its_reason(ms, own, path, st.attrs.mount_root);
    let spots = spots_of(ts);
    assert forall|i: int| 0 <= i < ts.len() implies spots[i] == ((#[trigger] ts[i]).path, ts[i].id) by {
    }
    if admitted(ms, ts, sk, st, slash, path, ids) is Ok {
        refusals_hold(ms, ts, sk, st, slash, path, ids);
        first_below_is_one(ts, ms, own, path);
        assert forall|i: int| 0 <= i < ts.len() implies !under(
            comps((#[trigger] ts[i]).path),
            comps(path),
        ) by {
            assert(!trash_below(ts[i], ms, own, path));
        }
        assert forall|i: int|
            0 <= i < ts.len() && inside_of(ms[k], path) is Some && first_with(
                ms,
                (#[trigger] ts[i]).id.mnt,
            ) is Some implies ({
            let tm = first_with(ms, ts[i].id.mnt)->0;
            !(tm.fs == ms[k].fs && inside_of(tm, ts[i].path) is Some && under(
                comps(inside_of(tm, ts[i].path)->0),
                comps(inside_of(ms[k], path)->0),
            ))
        }) by {
            assert(!trash_below(ts[i], ms, own, path));
        }
    } else {
        first_below_is_one(ts, ms, own, path);
        if forall|i: int, j: int|
            #![trigger ts[i], ids[j]]
            0 <= i < ts.len() && 0 <= j < ids.len() ==> !(ts[i].id.dev == ids[j].dev && ts[i].id.ino
                == ids[j].ino) {
            assert forall|i: int, j: int|
                #![trigger spots[i], ids[j]]
                0 <= i < spots.len() && 0 <= j < ids.len() implies !one_file(
                spots[i].1,
                ids[j],
            ) by {
                assert(spots[i] == (ts[i].path, ts[i].id));
            }
            no_spot_among(spots, ids);
        }
        if forall|i: int, j: int|
            #![trigger sk[i], ids[j]]
            0 <= i < sk.len() && 0 <= j < ids.len() ==> !(sk[i].1.dev == ids[j].dev && sk[i].1.ino
                == ids[j].ino) {
            no_spot_among(sk, ids);
        }
        if let Some(p) = first_below(ts, ms, own, path) {
            let i = choose|i: int|
                0 <= i < ts.len() && (#[trigger] ts[i]).path == p && trash_below(
                    ts[i],
                    ms,
                    own,
                    path,
                );
            assert(under(comps(ts[i].path), comps(path)) || inside_of(own, path) is Some);
        }
    }
}

/// A refusal names its reason.
pub proof fn a_refusal_names_its_reason(
    ms: Seq<MountView>,
    ts: Seq<TrashView>,
    sk: Seq<(Seq<u8>, Ident)>,
    st: Meta,
    slash: bool,
    path: Seq<u8>,
    ids: Seq<Ident>,
)
    ensures
        ({
            let r = admitted(ms, ts, sk, st, slash, path, ids);
            let own = first_with(ms, st.id.mnt);
            &&& slash && st.mode & 0xf000 == 0xa000 ==> r == Err::<FsId, Seq<char>>(
                "'X/' names a symbolic link; to trash the link, drop the trailing '/'"@,
            )
            &&& slash && st.mode & 0xf000 != 0xa000 && st.mode & 0xf000 != 0x4000 ==> r == Err::<
                FsId,
                Seq<char>,
            >("Not a directory"@)
            &&& !slash && own is None ==> r == Err::<FsId, Seq<char>>(
                "its mount is not in /proc/self/mountinfo"@,
            )
            &&& !slash && own is Some && own->0.ro ==> r == Err::<FsId, Seq<char>>(
                "its filesystem is read-only"@,
            )
            &&& !slash && own is Some && !own->0.ro && conflict_of(
                ms,
                own->0,
                path,
                st.attrs.mount_root,
            ) is Some ==> r == Err::<FsId, Seq<char>>(
                "it "@ + conflict_of(ms, own->0, path, st.attrs.mount_root)->0
                    + "; not trashing it"@,
            )
        }),
{
}

// ---------------------------------------------------------------------------
// One operand, placed
// ---------------------------------------------------------------------------

/// Why a file is copied into the home trash.
#[derive(Clone, Copy, PartialEq, Eq, Debug, Structural)]
pub enum Because {
    /// It is on another subvolume of the home trash's filesystem.
    Subvolume,
    /// No mount shows both it and the home trash.
    NoRoute,
    /// The rename crossed a filesystem boundary.
    Crossed,
    /// Its topdir has no usable trash.
    NoTopdir,
}

/// What the placing of an operand goes by: whether there is a question before
/// it, and the devices of the file and of the home trash.
#[derive(Clone, Copy, PartialEq, Eq, Debug, Structural)]
pub struct PlaceArgs {
    pub ask: bool,
    pub src_dev: Dev,
    pub home_dev: Dev,
    pub home_fs: FsId,
}

/// Where the placing of an operand stands.
#[derive(Clone, Copy, PartialEq, Eq, Debug, Structural)]
pub enum Place {
    /// Check whether it may be trashed.
    Check,
    /// Ask before trashing this one, which is on this filesystem.
    Ask(FsId),
    /// Find a mount that shows both the file and the home trash.
    Route,
    /// Open or make the topdir's trash.
    Topdir,
    /// Move it in.
    Move,
    /// Copy it into the home trash.
    Copy(Because),
    Moved,
    Declined,
    Failed,
}

/// What came of a step in placing an operand.
#[derive(Clone, Copy, PartialEq, Eq, Debug, Structural)]
pub enum PlaceFact {
    /// The file may be trashed; it is on this filesystem.
    Admitted(FsId),
    Refused,
    Yes,
    No,
    CannotAsk,
    Routed,
    NoRoute,
    RouteFailed,
    TopdirReady,
    /// No topdir trash; `inside`: the file is in the trash that would be used.
    TopdirRefused { inside: bool },
    MoveDone,
    MoveFailed(MoveErr),
}

/// Where the search for a place begins, for a file of this filesystem.
pub open spec fn place_begun(a: PlaceArgs, fs: FsId) -> Place {
    if a.src_dev == a.home_dev {
        Place::Route
    } else if fs == a.home_fs {
        Place::Copy(Because::Subvolume)
    } else {
        Place::Topdir
    }
}

/// One step in placing an operand.
pub open spec fn placed_step(a: PlaceArgs, at: Place, f: PlaceFact) -> Place {
    match (at, f) {
        (Place::Check, PlaceFact::Admitted(fs)) => if a.ask {
            Place::Ask(fs)
        } else {
            place_begun(a, fs)
        },
        (Place::Check, PlaceFact::Refused) => Place::Failed,
        (Place::Ask(fs), PlaceFact::Yes) => place_begun(a, fs),
        (Place::Ask(fs), PlaceFact::No) => Place::Declined,
        (Place::Ask(fs), PlaceFact::CannotAsk) => Place::Failed,
        (Place::Route, PlaceFact::Routed) => Place::Move,
        (Place::Route, PlaceFact::NoRoute) => Place::Copy(Because::NoRoute),
        (Place::Route, PlaceFact::RouteFailed) => Place::Failed,
        (Place::Topdir, PlaceFact::TopdirReady) => Place::Move,
        (Place::Topdir, PlaceFact::TopdirRefused { inside }) => if inside {
            Place::Failed
        } else {
            Place::Copy(Because::NoTopdir)
        },
        (Place::Move, PlaceFact::MoveDone) => Place::Moved,
        (Place::Move, PlaceFact::MoveFailed(e)) => if e == MoveErr::Crossed {
            Place::Copy(Because::Crossed)
        } else {
            Place::Failed
        },
        _ => at,
    }
}

/// What a check comes to for the placing of the operand.
pub fn admission(r: &Result<FsId, PutErr>) -> (f: PlaceFact)
    ensures
        f == (match *r {
            Ok(fs) => PlaceFact::Admitted(fs),
            Err(_) => PlaceFact::Refused,
        }),
{
    match r {
        Ok(fs) => PlaceFact::Admitted(*fs),
        Err(_) => PlaceFact::Refused,
    }
}

fn begin_place(a: PlaceArgs, fs: FsId) -> (p: Place)
    ensures
        p == place_begun(a, fs),
{
    match choose_trash(a.src_dev, fs, a.home_dev, a.home_fs) {
        Choice::Home => Place::Route,
        Choice::Topdir => Place::Topdir,
        Choice::Fallback(_) => Place::Copy(Because::Subvolume),
    }
}

/// Goes one step in placing an operand, from `Place::Check` on.
pub fn put_one(a: PlaceArgs, at: Place, f: PlaceFact) -> (p: Place)
    ensures
        p == placed_step(a, at, f),
{
    match (at, f) {
        (Place::Check, PlaceFact::Admitted(fs)) => {
            if a.ask {
                Place::Ask(fs)
            } else {
                begin_place(a, fs)
            }
        },
        (Place::Check, PlaceFact::Refused) => Place::Failed,
        (Place::Ask(fs), PlaceFact::Yes) => begin_place(a, fs),
        (Place::Ask(_), PlaceFact::No) => Place::Declined,
        (Place::Ask(_), PlaceFact::CannotAsk) => Place::Failed,
        (Place::Route, PlaceFact::Routed) => Place::Move,
        (Place::Route, PlaceFact::NoRoute) => Place::Copy(Because::NoRoute),
        (Place::Route, PlaceFact::RouteFailed) => Place::Failed,
        (Place::Topdir, PlaceFact::TopdirReady) => Place::Move,
        (Place::Topdir, PlaceFact::TopdirRefused { inside }) => {
            if inside {
                Place::Failed
            } else {
                Place::Copy(Because::NoTopdir)
            }
        },
        (Place::Move, PlaceFact::MoveDone) => Place::Moved,
        (Place::Move, PlaceFact::MoveFailed(e)) => {
            if e == MoveErr::Crossed {
                Place::Copy(Because::Crossed)
            } else {
                Place::Failed
            }
        },
        _ => at,
    }
}

/// Why a file is copied, in words; `top` is why its topdir has no trash.
pub open spec fn because_text(b: Because, top: Seq<char>) -> Seq<char> {
    match b {
        Because::Subvolume => "it is on another subvolume of the home trash's filesystem"@,
        Because::NoRoute => "no mount shows both it and the home trash"@,
        Because::Crossed => "the rename crossed a filesystem boundary"@,
        Because::NoTopdir => top,
    }
}

/// A copy is told its reason in words of its own, and the lack of a topdir trash as it was found.
pub proof fn a_copy_is_explained(b: Because, top: Seq<char>)
    ensures
        b is Subvolume ==> because_text(b, top)
            == "it is on another subvolume of the home trash's filesystem"@,
        b is NoRoute ==> because_text(b, top) == "no mount shows both it and the home trash"@,
        b is Crossed ==> because_text(b, top) == "the rename crossed a filesystem boundary"@,
        b is NoTopdir ==> because_text(b, top) == top,
{
}

/// Says why a file is copied.
pub fn say_because(b: Because, top: &str) -> (s: String)
    ensures
        s@ == because_text(b, top@),
{
    match b {
        Because::Subvolume => {
            "it is on another subvolume of the home trash's filesystem".to_owned()
        },
        Because::NoRoute => "no mount shows both it and the home trash".to_owned(),
        Because::Crossed => "the rename crossed a filesystem boundary".to_owned(),
        Because::NoTopdir => top.to_owned(),
    }
}

/// The placing of an operand after a course of reports.
pub open spec fn place_run(a: PlaceArgs, facts: Seq<PlaceFact>) -> Place
    decreases facts.len(),
{
    if facts.len() == 0 {
        Place::Check
    } else {
        placed_step(a, place_run(a, facts.drop_last()), facts.last())
    }
}

/// Whatever is reported, an operand is asked about, moved or copied only after
/// the check admitted it; and where there is a question, it is moved or copied
/// only after that was answered with yes.
pub proof fn nothing_happens_unadmitted(a: PlaceArgs, facts: Seq<PlaceFact>)
    ensures
        match place_run(a, facts) {
            Place::Check => true,
            Place::Failed => true,
            Place::Ask(fs) => facts.contains(PlaceFact::Admitted(fs)),
            Place::Declined => exists|fs: FsId| #[trigger]
                facts.contains(PlaceFact::Admitted(fs)),
            _ => (exists|fs: FsId| #[trigger] facts.contains(PlaceFact::Admitted(fs))) && (a.ask
                ==> facts.contains(PlaceFact::Yes)),
        },
    decreases facts.len(),
{
    if facts.len() > 0 {
        let front = facts.drop_last();
        nothing_happens_unadmitted(a, front);
        assert forall|f: PlaceFact| #[trigger] front.contains(f) implies facts.contains(f) by {
            let i = choose|i: int| 0 <= i < front.len() && front[i] == f;
            assert(facts[i] == f);
        }
        assert(facts[facts.len() - 1] == facts.last());
        match place_run(a, front) {
            Place::Check => {
                if let PlaceFact::Admitted(fs) = facts.last() {
                    assert(facts.contains(PlaceFact::Admitted(fs)));
                }
            },
            Place::Failed => {},
            Place::Ask(fs) => {
                assert(facts.contains(PlaceFact::Admitted(fs)));
            },
            _ => {
                let fs = choose|fs: FsId| #[trigger] front.contains(PlaceFact::Admitted(fs));
                assert(facts.contains(PlaceFact::Admitted(fs)));
            },
        }
    }
}

proof fn place_goes_on(a: PlaceArgs, facts: Seq<PlaceFact>, f: PlaceFact)
    ensures
        place_run(a, facts.push(f)) == placed_step(a, place_run(a, facts), f),
{
    assert(facts.push(f).drop_last() =~= facts);
}

/// A file that is admitted, and agreed to where there is a question, is moved
/// into the home trash if it is on its device, into its topdir's trash if it is
/// on another filesystem, and else copied. It is copied too where no mount shows
/// both, where its topdir has no trash, and where the rename crosses a boundary.
pub proof fn an_admitted_file_finds_its_place(a: PlaceArgs, fs: FsId)
    ensures
        ({
            let begun = if a.ask {
                seq![PlaceFact::Admitted(fs), PlaceFact::Yes]
            } else {
                seq![PlaceFact::Admitted(fs)]
            };
            if a.src_dev == a.home_dev {
                &&& place_run(a, begun) == Place::Route
                &&& place_run(a, begun.push(PlaceFact::Routed)) == Place::Move
                &&& place_run(a, begun.push(PlaceFact::Routed).push(PlaceFact::MoveDone))
                    == Place::Moved
                &&& place_run(
                    a,
                    begun.push(PlaceFact::Routed).push(PlaceFact::MoveFailed(MoveErr::Crossed)),
                ) == Place::Copy(Because::Crossed)
                &&& place_run(a, begun.push(PlaceFact::NoRoute)) == Place::Copy(Because::NoRoute)
                &&& place_run(a, begun.push(PlaceFact::RouteFailed)) == Place::Failed
            } else if fs == a.home_fs {
                place_run(a, begun) == Place::Copy(Because::Subvolume)
            } else {
                &&& place_run(a, begun) == Place::Topdir
                &&& place_run(a, begun.push(PlaceFact::TopdirReady)) == Place::Move
                &&& place_run(a, begun.push(PlaceFact::TopdirReady).push(PlaceFact::MoveDone))
                    == Place::Moved
                &&& place_run(
                    a,
                    begun.push(PlaceFact::TopdirReady).push(
                        PlaceFact::MoveFailed(MoveErr::Crossed),
                    ),
                ) == Place::Copy(Because::Crossed)
                &&& place_run(a, begun.push(PlaceFact::TopdirRefused { inside: false }))
                    == Place::Copy(Because::NoTopdir)
                &&& place_run(a, begun.push(PlaceFact::TopdirRefused { inside: true }))
                    == Place::Failed
            }
        }),
        a.ask ==> place_run(a, seq![PlaceFact::Admitted(fs)]) == Place::Ask(fs) && place_run(
            a,
            seq![PlaceFact::Admitted(fs), PlaceFact::No],
        ) == Place::Declined && place_run(a, seq![PlaceFact::Admitted(fs), PlaceFact::CannotAsk])
            == Place::Failed,
        place_run(a, seq![PlaceFact::Refused]) == Place::Failed,
{
    let none = Seq::<PlaceFact>::empty();
    let one = seq![PlaceFact::Admitted(fs)];
    assert(one =~= none.push(PlaceFact::Admitted(fs)));
    place_goes_on(a, none, PlaceFact::Admitted(fs));
    place_goes_on(a, none, PlaceFact::Refused);
    assert(seq![PlaceFact::Refused] =~= none.push(PlaceFact::Refused));
    place_goes_on(a, one, PlaceFact::Yes);
    place_goes_on(a, one, PlaceFact::No);
    place_goes_on(a, one, PlaceFact::CannotAsk);
    assert(seq![PlaceFact::Admitted(fs), PlaceFact::Yes] =~= one.push(PlaceFact::Yes));
    assert(seq![PlaceFact::Admitted(fs), PlaceFact::No] =~= one.push(PlaceFact::No));
    assert(seq![PlaceFact::Admitted(fs), PlaceFact::CannotAsk] =~= one.push(PlaceFact::CannotAsk));
    let begun = if a.ask {
        seq![PlaceFact::Admitted(fs), PlaceFact::Yes]
    } else {
        one
    };
    place_goes_on(a, begun, PlaceFact::Routed);
    place_goes_on(a, begun, PlaceFact::NoRoute);
    place_goes_on(a, begun, PlaceFact::RouteFailed);
    place_goes_on(a, begun, PlaceFact::TopdirReady);
    place_goes_on(a, begun, PlaceFact::TopdirRefused { inside: false });
    place_goes_on(a, begun, PlaceFact::TopdirRefused { inside: true });
    let crossed = PlaceFact::MoveFailed(MoveErr::Crossed);
    place_goes_on(a, begun.push(PlaceFact::Routed), PlaceFact::MoveDone);
    place_goes_on(a, begun.push(PlaceFact::Routed), crossed);
    place_goes_on(a, begun.push(PlaceFact::TopdirReady), PlaceFact::MoveDone);
    place_goes_on(a, begun.push(PlaceFact::TopdirReady), crossed);
}

/// A move that fails for another reason than a boundary is a failure: nothing is
/// copied then. What is decided stays.
pub proof fn only_a_boundary_leads_to_a_copy(a: PlaceArgs, facts: Seq<PlaceFact>, f: PlaceFact)
    ensures
        ({
            let next = place_run(a, facts.push(f));
            match place_run(a, facts) {
                Place::Move => match f {
                    PlaceFact::MoveFailed(e) => next == (if e is Crossed {
                        Place::Copy(Because::Crossed)
                    } else {
                        Place::Failed
                    }),
                    PlaceFact::MoveDone => next == Place::Moved,
                    _ => next == Place::Move,
                },
                Place::Copy(b) => next == Place::Copy(b),
                Place::Moved => next == Place::Moved,
                Place::Declined => next == Place::Declined,
                Place::Failed => next == Place::Failed,
                _ => true,
            }
        }),
{
    place_goes_on(a, facts, f);
}

/// A file on the home trash's filesystem never gets as far as a topdir trash:
/// none is ever opened or made there.
pub proof fn no_topdir_on_the_home_filesystem(a: PlaceArgs, facts: Seq<PlaceFact>)
    requires
        forall|fs: FsId| #[trigger] facts.contains(PlaceFact::Admitted(fs)) ==> fs == a.home_fs,
    ensures
        place_run(a, facts) !is Topdir,
    decreases facts.len(),
{
    if facts.len() > 0 {
        let front = facts.drop_last();
        assert forall|fs: FsId| #[trigger] front.contains(PlaceFact::Admitted(fs)) implies fs
            == a.home_fs by {
            let i = choose|i: int| 0 <= i < front.len() && front[i] == PlaceFact::Admitted(fs);
            assert(facts[i] == PlaceFact::Admitted(fs));
            assert(facts.contains(PlaceFact::Admitted(fs)));
        }
        no_topdir_on_the_home_filesystem(a, front);
        nothing_happens_unadmitted(a, front);
        assert(facts[facts.len() - 1] == facts.last());
        if let PlaceFact::Admitted(fs) = facts.last() {
            assert(facts.contains(PlaceFact::Admitted(fs)));
        }
    }
}

// ---------------------------------------------------------------------------
// The whole command
// ---------------------------------------------------------------------------

/// What came of an operand.
#[derive(Debug)]
pub enum Done {
    Moved(Vec<u8>),
    Copied(Vec<u8>, u64),
    Declined,
}

/// What `-v` says of an operand.
pub open spec fn done_text(d: Done, arg: Seq<u8>) -> Option<Seq<char>> {
    match d {
        Done::Moved(dest) => Some("trashed '"@ + escaped(arg) + "' -> "@ + escaped(dest@)),
        Done::Copied(dest, size) => Some(
            "copied '"@ + escaped(arg) + "' ("@ + human_text(size as nat) + ") -> "@ + escaped(
                dest@,
            ),
        ),
        Done::Declined => None,
    }
}

impl Done {
    /// What `-v` says of this operand.
    pub fn print(&self, arg: &[u8]) -> (r: Option<String>)
        ensures
            match r {
                Some(s) => done_text(*self, arg@) == Some(s@),
                None => done_text(*self, arg@) is None,
            },
    {
        match self {
            Done::Moved(dest) => {
                let mut s = String::from_str("trashed '");
                s.append(show(arg).as_str());
                s.append("' -> ");
                s.append(escape(dest.as_slice()).as_str());
                Some(s)
            },
            Done::Copied(dest, size) => {
                let mut s = String::from_str("copied '");
                s.append(show(arg).as_str());
                s.append("' (");
                s.append(human(*size).as_str());
                s.append(") -> ");
                s.append(escape(dest.as_slice()).as_str());
                Some(s)
            },
            Done::Declined => None,
        }
    }
}

/// A path for a person.
pub fn show(p: &[u8]) -> (s: String)
    ensures
        s@ == escaped(p@),
{
    escape(p)
}

/// What was asked for on the command line.
#[derive(Clone, Copy, PartialEq, Eq, Debug, Structural)]
pub struct Flags {
    pub force: bool,
    pub interactive: bool,
    pub interactive_once: bool,
    pub verbose: bool,
}

/// Whether there is one question before all: `-I` without `-f` or `-i`, and more
/// than three operands or a directory among them.
pub fn asks_once(f: Flags, operands: usize, any_dir: bool) -> (r: bool)
    ensures
        r == (!f.force && f.interactive_once && !f.interactive && (operands > 3 || any_dir)),
{
    !f.force && f.interactive_once && !f.interactive && (operands > 3 || any_dir)
}

/// Whether there is a question before each operand: `-i` without `-f`.
pub fn asks_each(f: Flags) -> (r: bool)
    ensures
        r == (f.interactive && !f.force),
{
    f.interactive && !f.force
}

/// `trash N arguments?`
pub fn once_question(operands: usize) -> (s: String)
    ensures
        s@ == "trash "@ + decimal(operands as nat) + " arguments?"@,
{
    let mut s = String::from_str("trash ");
    s.append(number(operands as u64).as_str());
    s.append(" arguments?");
    s
}

/// `trash 'X'?`
pub fn each_question(arg: &[u8]) -> (s: String)
    ensures
        s@ == "trash '"@ + escaped(arg@) + "'?"@,
{
    let mut s = String::from_str("trash '");
    s.append(show(arg).as_str());
    s.append("'?");
    s
}

/// What is said of an operand that was not trashed: nothing, where `-f` passes
/// over a file that is not there.
pub open spec fn complaint_of(force: bool, arg: Seq<u8>, e: (Seq<char>, bool)) -> Option<
    Seq<char>,
> {
    if force && e.1 {
        None
    } else {
        Some("cannot trash '"@ + escaped(arg) + "': "@ + e.0)
    }
}

/// Says why an operand was not trashed.
pub fn complaint(force: bool, arg: &[u8], e: &PutErr) -> (r: Option<String>)
    ensures
        match r {
            Some(s) => complaint_of(force, arg@, e@) == Some(s@),
            None => complaint_of(force, arg@, e@) is None,
        },
{
    if force && e.not_found {
        return None;
    }
    let mut s = String::from_str("cannot trash '");
    s.append(show(arg).as_str());
    s.append("': ");
    s.append(e.msg.as_str());
    Some(s)
}

/// What is said of an operand.
pub enum Said {
    Nothing,
    /// What `-v` says.
    Word(String),
    /// Why it was not trashed.
    Complaint(String),
}

/// What a `Said` holds.
pub enum SaidView {
    Nothing,
    Word(Seq<char>),
    Complaint(Seq<char>),
}

impl View for Said {
    type V = SaidView;

    open spec fn view(&self) -> SaidView {
        match self {
            Said::Nothing => SaidView::Nothing,
            Said::Word(s) => SaidView::Word(s@),
            Said::Complaint(s) => SaidView::Complaint(s@),
        }
    }
}

/// What became of an operand, as contents.
pub open spec fn outcome_view(r: Result<Done, PutErr>) -> Result<Done, (Seq<char>, bool)> {
    match r {
        Ok(d) => Ok(d),
        Err(e) => Err(e@),
    }
}

/// What is said of an operand: with `-v` what was done, and why nothing was.
pub open spec fn said_of(f: Flags, arg: Seq<u8>, r: Result<Done, (Seq<char>, bool)>) -> SaidView {
    match r {
        Ok(d) => match done_text(d, arg) {
            Some(t) => if f.verbose {
                SaidView::Word(t)
            } else {
                SaidView::Nothing
            },
            None => SaidView::Nothing,
        },
        Err(e) => match complaint_of(f.force, arg, e) {
            Some(t) => SaidView::Complaint(t),
            None => SaidView::Nothing,
        },
    }
}

/// Takes in what became of one operand: whether all went well so far, and what
/// is said. One that fails does not keep the others from being tried.
pub fn after_operand(ok: bool, f: Flags, arg: &[u8], r: &Result<Done, PutErr>) -> (out: (
    bool,
    Said,
))
    ensures
        out.0 == (ok && said_of(f, arg@, outcome_view(*r)) !is Complaint),
        out.1@ == said_of(f, arg@, outcome_view(*r)),
{
    match r {
        Ok(d) => match d.print(arg) {
            Some(s) => if f.verbose {
                (ok, Said::Word(s))
            } else {
                (ok, Said::Nothing)
            },
            None => (ok, Said::Nothing),
        },
        Err(e) => match complaint(f.force, arg, e) {
            Some(s) => (false, Said::Complaint(s)),
            None => (ok, Said::Nothing),
        },
    }
}

/// What the command comes to, after the operands with these outcomes.
pub open spec fn all_well(
    f: Flags,
    outcomes: Seq<(Seq<u8>, Result<Done, (Seq<char>, bool)>)>,
) -> bool
    decreases outcomes.len(),
{
    if outcomes.len() == 0 {
        true
    } else {
        all_well(f, outcomes.drop_last()) && said_of(
            f,
            outcomes.last().0,
            outcomes.last().1,
        ) !is Complaint
    }
}

/// The command succeeds just where there is no complaint about any operand.
pub proof fn success_means_no_complaint(
    f: Flags,
    outcomes: Seq<(Seq<u8>, Result<Done, (Seq<char>, bool)>)>,
)
    ensures
        all_well(f, outcomes) <==> forall|i: int|
            0 <= i < outcomes.len() ==> said_of(
                f,
                (#[trigger] outcomes[i]).0,
                outcomes[i].1,
            ) !is Complaint,
    decreases outcomes.len(),
{
    if outcomes.len() > 0 {
        let front = outcomes.drop_last();
        success_means_no_complaint(f, front);
        assert(forall|i: int| 0 <= i < front.len() ==> front[i] == #[trigger] outcomes[i]);
        assert(outcomes[outcomes.len() - 1] == outcomes.last());
        if all_well(f, outcomes) {
            assert forall|i: int| 0 <= i < outcomes.len() implies said_of(
                f,
                (#[trigger] outcomes[i]).0,
                outcomes[i].1,
            ) !is Complaint by {
                if i < front.len() {
                    assert(front[i] == outcomes[i]);
                }
            }
        } else if all_well(f, front) {
        } else {
            let i = choose|i: int|
                0 <= i < front.len() && said_of(f, (#[trigger] front[i]).0, front[i].1) is Complaint;
            assert(front[i] == outcomes[i]);
        }
    }
}

/// An operand that was trashed is spoken of only with `-v`, and then with where
/// it went; one that was not is always complained of, by name and with the
/// reason, but for a missing one under `-f`.
pub proof fn what_is_said_of_an_operand(f: Flags, arg: Seq<u8>, r: Result<Done, (Seq<char>, bool)>)
    ensures
        match r {
            Ok(Done::Declined) => said_of(f, arg, r) is Nothing,
            Ok(Done::Moved(dest)) => if f.verbose {
                said_of(f, arg, r) == SaidView::Word(
                    "trashed '"@ + escaped(arg) + "' -> "@ + escaped(dest@),
                )
            } else {
                said_of(f, arg, r) is Nothing
            },
            Ok(Done::Copied(dest, size)) => if f.verbose {
                said_of(f, arg, r) == SaidView::Word(
                    "copied '"@ + escaped(arg) + "' ("@ + human_text(size as nat) + ") -> "@
                        + escaped(dest@),
                )
            } else {
                said_of(f, arg, r) is Nothing
            },
            Err(e) => if f.force && e.1 {
                said_of(f, arg, r) is Nothing
            } else {
                said_of(f, arg, r) == SaidView::Complaint(
                    "cannot trash '"@ + escaped(arg) + "': "@ + e.0,
                )
            },
        },
{
}

/// The bytes of a `Path=` for a file that goes to a trash: the whole path in the
/// home trash, the path beneath the topdir in another.
pub open spec fn field_of(kind: Kind, base: Seq<u8>, path: Seq<u8>) -> Seq<u8> {
    if kind == Kind::Home || !under(comps(path), comps(base)) {
        path
    } else {
        rendered(comps(path).skip(comps(base).len() as int))
    }
}

/// A path as a file has it that is trashed: absolute, without `..` and NUL, and
/// for a topdir trash beneath the topdir.
pub open spec fn may_come_back(kind: Kind, base: Seq<u8>, path: Seq<u8>) -> bool {
    &&& absolute(path)
    &&& !path.contains(0)
    &&& !comps(path).contains(parent_comp())
    &&& kind != Kind::Home ==> absolute(base) && under(comps(path), comps(base)) && comps(base).len()
        < comps(path).len()
}

/// What a `Path=` was written for comes back from it: the same path, in its
/// shortest form.
pub proof fn a_trashed_path_comes_back(kind: Kind, base: Seq<u8>, path: Seq<u8>)
    requires
        may_come_back(kind, base, path),
    ensures
        original_of(kind, base, field_of(kind, base, path)) == Ok::<Seq<u8>, Seq<char>>(
            rendered(comps(path)),
        ),
{
    let c = comps(path);
    let b = comps(base);
    let f = field_of(kind, base, path);
    if kind != Kind::Home {
        let rest = c.skip(b.len() as int);
        comps_are_well_formed(path);
        assert forall|i: int| 0 <= i < rest.len() implies is_name(#[trigger] rest[i]) by {
            assert(rest[i] == c[b.len() + i]);
        }
        assert(rest[0] != root_comp() && rest[0] != dot_comp());
        rendered_keeps_comps(rest);
        assert(f == shown_as(path, base));
        shown_holds_no_nul(path, base);
        assert(f.len() > 0) by {
            if f.len() == 0 {
                assert(f =~= Seq::<u8>::empty());
                rendered_keeps_comps(Seq::<Seq<u8>>::empty());
                assert(rendered(Seq::<Seq<u8>>::empty()) =~= Seq::<u8>::empty());
            }
        }
        assert(!absolute(f));
        comps_of_joined(base, f);
        assert(comps(f) == names_in(split_on(f, SLASH)));
        assert(b + rest =~= c);
        assert forall|i: int| 0 <= i < rest.len() implies rest[i] != parent_comp() by {
            assert(rest[i] == c[b.len() + i]);
        }
    }
}

/// The home trash records the whole path, a topdir trash the path beneath its
/// topdir.
pub proof fn a_topdir_path_is_relative(kind: Kind, base: Seq<u8>, path: Seq<u8>)
    requires
        may_come_back(kind, base, path),
    ensures
        kind is Home ==> field_of(kind, base, path) == path,
        !(kind is Home) ==> !absolute(field_of(kind, base, path)) && comps(base) + comps(
            field_of(kind, base, path),
        ) == comps(path),
{
    let c = comps(path);
    let b = comps(base);
    if kind != Kind::Home {
        let rest = c.skip(b.len() as int);
        comps_are_well_formed(path);
        assert forall|i: int| 0 <= i < rest.len() implies is_name(#[trigger] rest[i]) by {
            assert(rest[i] == c[b.len() + i]);
        }
        assert(rest[0] != root_comp() && rest[0] != dot_comp()) by {
            assert(is_name(rest[0]));
            assert(root_comp().contains(root_comp()[0]));
        }
        rendered_keeps_comps(rest);
        if absolute(field_of(kind, base, path)) {
            assert(comps(rendered(rest))[0] == root_comp());
        }
        assert(b + rest =~= c);
    }
}

/// The bytes that a `Path=` is to hold for `path`.
pub fn path_field(t: &Trash, path: &[u8]) -> (r: Vec<u8>)
    ensures
        r@ == field_of(t.kind, t.base@, path@),
{
    if t.kind == Kind::Home {
        return copy(path);
    }
    match beyond(path, t.base.as_slice()) {
        Some(rest) => render(rest.as_slice()),
        None => copy(path),
    }
}

} // verus!
