//! Where a file goes: the choice of trash, the topdir directories, operands.
use rip::mounts::{FsId, Mounts};
use rip::put::{
    admin_failure, admin_notice, admission, after_operand, asks_each, asks_once, check_operand,
    choose_topdir, choose_trash, complaint, each_question, inside_skipped, inside_trash, io_error,
    lies_inside, not_found, once_question, parent_moved, path_field, put_one, say_because, show, split_arg, topdir_problem,
    topdir_trash, Because, Choice, Done, Entry, Flags, Pick, Place, PlaceArgs, PlaceFact, PutErr,
    Said, Top, TopArgs, TopErr, TopFact,
};
use rip::info::Kind;
use rip::reserve::MoveErr;
use rip::sys::{Attrs, Dev, Ident, Meta, Stamp, ENOENT, ENOTDIR, EACCES, S_IFDIR, S_IFLNK, S_IFREG};
use rip::trash::{Skipped, Trash};

// ---- choosing a trash ----

#[test]
fn choose_same_dev_is_home() {
    let home_dev = Dev(1, 0);
    let home_fs = FsId(8, 0);
    assert!(matches!(
        choose_trash(home_dev, FsId(8, 1), home_dev, home_fs),
        Choice::Home
    ));
}

#[test]
fn choose_same_fs_other_dev_is_fallback() {
    let home_dev = Dev(1, 0);
    let home_fs = FsId(8, 0);
    let src_dev = Dev(1, 1); // a different subvolume of the same filesystem
    assert!(matches!(
        choose_trash(src_dev, home_fs, home_dev, home_fs),
        Choice::Fallback(_)
    ));
}

#[test]
fn choose_other_fs_is_topdir() {
    let home_dev = Dev(1, 0);
    let home_fs = FsId(8, 0);
    assert!(matches!(
        choose_trash(Dev(2, 0), FsId(9, 0), home_dev, home_fs),
        Choice::Topdir
    ));
}

// ---- choosing a topdir trash ----

fn is_sticky_dir(e: Entry) -> bool {
    matches!(e, Entry::Dir { sticky: true, .. })
}

fn owned_by(e: Entry, uid: u32) -> bool {
    matches!(e, Entry::Dir { uid: u, .. } if u == uid)
}

fn usable(e: Entry, uid: u32) -> bool {
    matches!(e, Entry::Missing) || owned_by(e, uid)
}

fn entries() -> [Entry; 6] {
    [
        Entry::Missing,
        Entry::Dir {
            uid: 1000,
            sticky: true,
        },
        Entry::Dir {
            uid: 1000,
            sticky: false,
        },
        Entry::Dir {
            uid: 2000,
            sticky: true,
        },
        Entry::Dir {
            uid: 2000,
            sticky: false,
        },
        Entry::Other,
    ]
}

#[test]
fn choose_topdir_never_returns_a_directory_owned_by_another_uid() {
    let uid = 1000;
    for admin in entries() {
        for admin_uid in entries() {
            for user in entries() {
                if let Ok(Pick::Admin { .. }) = choose_topdir(admin, admin_uid, user, uid) {
                    assert!(
                        usable(admin_uid, uid),
                        "Admin picked with an unusable admin_uid: {admin_uid:?}"
                    );
                }
                if let Ok(Pick::User { .. }) = choose_topdir(admin, admin_uid, user, uid) {
                    assert!(
                        usable(user, uid),
                        "User picked with an unusable user: {user:?}"
                    );
                }
            }
        }
    }
}

#[test]
fn choose_topdir_picks_admin_only_if_sticky() {
    let uid = 1000;
    for admin in entries() {
        for admin_uid in entries() {
            for user in entries() {
                if let Ok(Pick::Admin { .. }) = choose_topdir(admin, admin_uid, user, uid) {
                    assert!(
                        is_sticky_dir(admin),
                        "Admin picked without a sticky .Trash: {admin:?}"
                    );
                }
            }
        }
    }
}

#[test]
fn choose_topdir_create_true_only_for_missing() {
    let uid = 1000;
    for admin in entries() {
        for admin_uid in entries() {
            for user in entries() {
                match choose_topdir(admin, admin_uid, user, uid) {
                    Ok(Pick::Admin { create }) => {
                        assert_eq!(
                            create,
                            matches!(admin_uid, Entry::Missing),
                            "{admin_uid:?}"
                        );
                    }
                    Ok(Pick::User { create }) => {
                        assert_eq!(create, matches!(user, Entry::Missing), "{user:?}");
                    }
                    Err(_) => {}
                }
            }
        }
    }
}

#[test]
fn choose_topdir_falls_to_method_2_exactly_when_method_1_is_invalid() {
    let uid = 1000;
    for admin in entries() {
        for admin_uid in entries() {
            for user in entries() {
                let method1_valid = is_sticky_dir(admin) && usable(admin_uid, uid);
                let result = choose_topdir(admin, admin_uid, user, uid);
                let picked_admin = matches!(result, Ok(Pick::Admin { .. }));
                assert_eq!(
                    picked_admin, method1_valid,
                    "admin={admin:?} admin_uid={admin_uid:?} user={user:?} -> {result:?}"
                );
                if !method1_valid {
                    match result {
                        Ok(Pick::User { .. }) => assert!(usable(user, uid)),
                        Err(_) => assert!(!usable(user, uid)),
                        Ok(Pick::Admin { .. }) => unreachable!(),
                    }
                }
            }
        }
    }
}

// ---- operands ----

#[test]
fn split_arg_root_is_refused() {
    assert!(split_arg(b"/").is_err());
    assert!(split_arg(b"///").is_err());
}

#[test]
fn split_arg_dot_and_dotdot_are_refused() {
    assert!(split_arg(b".").is_err());
    assert!(split_arg(b"..").is_err());
    assert!(split_arg(b"foo/.").is_err());
}

#[test]
fn split_arg_trailing_slashes_set_the_flag() {
    let (parent, name, slash) = split_arg(b"a//").unwrap();
    assert_eq!(parent, b".");
    assert_eq!(name, b"a");
    assert!(slash);
}

#[test]
fn split_arg_dash_is_a_plain_file() {
    let (parent, name, slash) = split_arg(b"-").unwrap();
    assert_eq!(parent, b".");
    assert_eq!(name, b"-");
    assert!(!slash);
}

#[test]
fn split_arg_ordinary_absolute_path() {
    let (parent, name, slash) = split_arg(b"/a/b/c").unwrap();
    assert_eq!(parent, b"/a/b");
    assert_eq!(name, b"c");
    assert!(!slash);
}

#[test]
fn split_arg_empty_is_not_found() {
    let err = split_arg(b"").unwrap_err();
    assert!(err.not_found);
}

#[test]
fn split_arg_root_relative_name_has_root_parent() {
    let (parent, name, _) = split_arg(b"/x").unwrap();
    assert_eq!(parent, b"/");
    assert_eq!(name, b"x");
}

// ---- refusals ----

fn ident(ino: u64, mnt: u64) -> Ident {
    Ident {
        dev: Dev(1, 0),
        ino,
        mnt,
    }
}

fn meta(mode: u32, ino: u64, mnt: u64) -> Meta {
    Meta {
        id: ident(ino, mnt),
        mode,
        uid: 1000,
        nlink: 1,
        size: 0,
        mtime: Stamp { secs: 0, nanos: 0 },
        ctime: Stamp { secs: 0, nanos: 0 },
        attrs: Attrs {
            mount_root: false,
            immutable: false,
            append: false,
        },
    }
}

fn home_trash() -> Trash {
    Trash {
        kind: Kind::Home,
        path: b"/home/u/.local/share/Trash".to_vec(),
        base: b"/home/u/.local/share".to_vec(),
        id: ident(50, 10),
        files_id: ident(51, 10),
    }
}

/// A trash directory that was skipped.
fn half_trash() -> Skipped {
    Skipped {
        path: b"/mnt/d/.Trash-1000".to_vec(),
        id: ident(70, 12),
    }
}

fn some_mounts() -> Mounts {
    Mounts::parse(
        b"10 1 8:1 / / rw - ext4 /dev/sda1 rw\n\
          11 10 8:2 / /mnt/ro ro - ext4 /dev/sda2 rw\n\
          12 10 8:3 / /mnt/d rw - ext4 /dev/sda3 rw\n",
    )
}

#[test]
fn an_ordinary_operand_is_taken() {
    let r = check_operand(
        &some_mounts(),
        &vec![home_trash()],
        &vec![half_trash()],
        &meta(S_IFREG | 0o644, 7, 10),
        false,
        b"/home/u/x",
        &vec![ident(6, 10), ident(2, 10)],
    );
    assert_eq!(r.unwrap(), FsId(8, 1));
}

#[test]
fn refused_operands() {
    let ms = some_mounts();
    let ts = vec![home_trash()];
    let no_ids: Vec<Ident> = vec![];
    let refuse = |st: &Meta, slash: bool, path: &[u8], ids: &Vec<Ident>| {
        check_operand(&ms, &ts, &vec![half_trash()], st, slash, path, ids)
            .unwrap_err()
            .msg
    };
    let file = meta(S_IFREG | 0o644, 7, 10);
    let dir = meta(S_IFDIR | 0o755, 8, 10);
    // A trailing slash asks for a directory.
    let link = refuse(&meta(S_IFLNK | 0o777, 9, 10), true, b"/home/u/l", &no_ids);
    let plain = refuse(&file, true, b"/home/u/x", &no_ids);
    assert_ne!(link, plain);
    // On a mount that nobody knows, and on a read-only one.
    refuse(&meta(S_IFREG | 0o644, 7, 99), false, b"/home/u/x", &no_ids);
    let ro = refuse(&meta(S_IFREG | 0o644, 7, 11), false, b"/mnt/ro/x", &no_ids);
    assert!(ro.contains("read-only"), "{ro}");
    // A directory with mount points in it.
    let conflict = refuse(&dir, false, b"/mnt", &no_ids);
    assert!(conflict.contains("contains the mount point /mnt/"), "{conflict}");
    // Inside a trash, or around one.
    let inside = refuse(&file, false, b"/home/u/.local/share/Trash/files/x", &vec![ident(50, 10)]);
    assert!(inside.contains("/home/u/.local/share/Trash"), "{inside}");
    // Inside one that discovery skipped.
    let half = refuse(
        &meta(S_IFREG | 0o644, 7, 12),
        false,
        b"/mnt/d/.Trash-1000/files/foo",
        &vec![ident(7, 12), ident(71, 12), ident(70, 12)],
    );
    assert_eq!(
        half,
        "it is inside the trash at /mnt/d/.Trash-1000; use `rip purge` to delete it"
    );
    let around = refuse(&dir, false, b"/home/u/.local", &no_ids);
    assert!(around.contains("/home/u/.local/share/Trash"), "{around}");
}

#[test]
fn missing_operands_count_as_such() {
    assert!(io_error(Some(ENOENT), "gone").not_found);
    assert!(io_error(Some(ENOTDIR), "not a directory").not_found);
    assert!(!io_error(Some(EACCES), "denied").not_found);
    assert!(!io_error(None, "odd").not_found);
    assert_eq!(io_error(Some(EACCES), "denied").msg, "denied");
    // -f passes over a missing operand, and over nothing else.
    assert_eq!(complaint(true, b"x", &not_found("no")), None);
    assert_eq!(
        complaint(false, b"x\n", &not_found("no")),
        Some("cannot trash 'x\\n': no".to_string())
    );
    assert!(complaint(true, b"x", &io_error(Some(EACCES), "denied")).is_some());
}

// ---- the way of a file ----

fn place_args(ask: bool, src_dev: Dev) -> PlaceArgs {
    PlaceArgs {
        ask,
        src_dev,
        home_dev: Dev(1, 0),
        home_fs: FsId(8, 1),
    }
}

#[test]
fn nothing_is_asked_or_moved_before_the_check() {
    let a = place_args(true, Dev(1, 0));
    let refused = check_operand(
        &some_mounts(),
        &vec![home_trash()],
        &vec![],
        &meta(S_IFREG | 0o644, 7, 11),
        false,
        b"/mnt/ro/x",
        &vec![],
    );
    assert_eq!(admission(&refused), PlaceFact::Refused);
    assert_eq!(put_one(a, Place::Check, admission(&refused)), Place::Failed);
    assert_eq!(admission(&Ok(FsId(8, 1))), PlaceFact::Admitted(FsId(8, 1)));
    // No other report leads on from the check.
    for f in [
        PlaceFact::Yes,
        PlaceFact::Routed,
        PlaceFact::TopdirReady,
        PlaceFact::MoveDone,
    ] {
        assert_eq!(put_one(a, Place::Check, f), Place::Check);
    }
}

#[test]
fn a_file_on_another_subvolume_is_copied() {
    let at = put_one(
        place_args(false, Dev(1, 1)),
        Place::Check,
        PlaceFact::Admitted(FsId(8, 1)),
    );
    assert_eq!(at, Place::Copy(Because::Subvolume));
}

#[test]
fn a_file_at_home_is_moved_or_copied() {
    let begun = place_args(true, Dev(1, 0));
    let at = put_one(begun, Place::Check, PlaceFact::Admitted(FsId(8, 1)));
    assert_eq!(at, Place::Ask(FsId(8, 1)));
    assert_eq!(put_one(begun, at, PlaceFact::No), Place::Declined);
    assert_eq!(put_one(begun, at, PlaceFact::CannotAsk), Place::Failed);
    let at = put_one(begun, at, PlaceFact::Yes);
    assert_eq!(at, Place::Route);
    assert_eq!(put_one(begun, at, PlaceFact::NoRoute), Place::Copy(Because::NoRoute));
    assert_eq!(put_one(begun, at, PlaceFact::RouteFailed), Place::Failed);
    let at = put_one(begun, at, PlaceFact::Routed);
    assert_eq!(at, Place::Move);
    assert_eq!(
        put_one(begun, at, PlaceFact::MoveFailed(MoveErr::Crossed)),
        Place::Copy(Because::Crossed)
    );
    assert_eq!(put_one(begun, at, PlaceFact::MoveFailed(MoveErr::Io)), Place::Failed);
    assert_eq!(put_one(begun, at, PlaceFact::MoveDone), Place::Moved);
}

#[test]
fn a_file_elsewhere_goes_to_its_topdir() {
    let begun = place_args(false, Dev(2, 0));
    let at = put_one(begun, Place::Check, PlaceFact::Admitted(FsId(9, 0)));
    assert_eq!(at, Place::Topdir);
    assert_eq!(put_one(begun, at, PlaceFact::TopdirReady), Place::Move);
    assert_eq!(
        put_one(begun, at, PlaceFact::TopdirRefused { inside: false }),
        Place::Copy(Because::NoTopdir)
    );
    assert_eq!(
        put_one(begun, at, PlaceFact::TopdirRefused { inside: true }),
        Place::Failed
    );
    assert_ne!(say_because(Because::NoTopdir, "top"), say_because(Because::Subvolume, "top"));
}

#[test]
fn a_new_user_topdir_is_made_and_taken() {
    let a = TopArgs {
        mnt: 12,
        dev: Dev(8, 3),
        uid: 1000,
    };
    let top = Ident {
        dev: Dev(8, 3),
        ino: 2,
        mnt: 12,
    };
    let at = topdir_trash(a, Top::Open, TopFact::Opened(top));
    assert_eq!(at, Top::Look);
    let at = topdir_trash(
        a,
        at,
        TopFact::Looked {
            admin: Entry::Missing,
            admin_uid: Entry::Missing,
            user: Entry::Missing,
            inside_admin: false,
            inside_user: false,
        },
    );
    assert_eq!(at, Top::MakeUser);
    let at = topdir_trash(a, at, TopFact::Made);
    assert_eq!(at, Top::Files(Kind::User));
    let at = topdir_trash(a, at, TopFact::Made);
    assert_eq!(at, Top::Infos(Kind::User));
    let at = topdir_trash(a, at, TopFact::Made);
    assert_eq!(at, Top::Take(Kind::User));
    let at = topdir_trash(a, at, TopFact::Taken { id: top, files: top });
    assert_eq!(at, Top::Ready(Kind::User));
}

#[test]
fn a_topdir_on_a_covered_mount_is_refused() {
    let a = TopArgs {
        mnt: 12,
        dev: Dev(8, 3),
        uid: 1000,
    };
    let covered = Ident {
        dev: Dev(8, 9),
        ino: 2,
        mnt: 44,
    };
    assert!(matches!(
        topdir_trash(a, Top::Open, TopFact::Opened(covered)),
        Top::Refused(_)
    ));
    assert_eq!(
        topdir_trash(a, Top::Open, TopFact::OpenFailed),
        Top::Refused(TopErr::Io)
    );
    assert_eq!(topdir_problem(TopErr::Io, b"/mnt/d", "denied"), "denied");
    let inside = topdir_problem(TopErr::Inside(Kind::User), b"/mnt/d/.Trash-1000", "");
    assert_eq!(
        inside,
        "it is inside the trash at /mnt/d/.Trash-1000; use `rip purge` to delete it"
    );
}

#[test]
fn a_file_inside_a_topdir_trash_is_refused_whichever_is_picked() {
    let a = TopArgs {
        mnt: 12,
        dev: Dev(8, 3),
        uid: 1000,
    };
    let sticky = Entry::Dir { uid: 0, sticky: true };
    let own = Entry::Dir { uid: 1000, sticky: false };
    let look = |admin: Entry, admin_uid: Entry, inside_admin: bool, inside_user: bool| {
        topdir_trash(
            a,
            Top::Look,
            TopFact::Looked {
                admin,
                admin_uid,
                user: own,
                inside_admin,
                inside_user,
            },
        )
    };
    // The shared trash is usable or could be made, the file lies in the other.
    for admin_uid in [own, Entry::Missing] {
        assert_eq!(
            look(sticky, admin_uid, false, true),
            Top::Refused(TopErr::Inside(Kind::User))
        );
    }
    assert_eq!(
        look(sticky, own, true, false),
        Top::Refused(TopErr::Inside(Kind::Admin))
    );
    assert_eq!(
        look(Entry::Missing, Entry::Missing, false, true),
        Top::Refused(TopErr::Inside(Kind::User))
    );
    // Outside of both it goes on.
    assert_eq!(look(sticky, own, false, false), Top::Files(Kind::Admin));
    assert_eq!(
        look(sticky, Entry::Missing, false, false),
        Top::MakeAdmin { user: own }
    );
    assert_eq!(
        topdir_trash(a, Top::MakeAdmin { user: own }, TopFact::MakeFailed),
        Top::Files(Kind::User)
    );
}

#[test]
fn a_trash_is_found_by_what_it_is() {
    let ids = vec![ident(7, 10), ident(50, 10)];
    assert_eq!(inside_trash(&vec![home_trash()], &ids), Some(0));
    assert_eq!(inside_trash(&vec![home_trash()], &vec![ident(7, 10)]), None);
    assert_eq!(inside_skipped(&vec![half_trash()], &vec![ident(70, 12)]), Some(0));
    assert_eq!(inside_skipped(&vec![half_trash()], &ids), None);
    assert!(lies_inside(Some(ident(50, 11)), &ids));
    assert!(!lies_inside(Some(ident(51, 10)), &ids));
    assert!(!lies_inside(None, &ids));
}

#[test]
fn a_parent_that_moved_is_noticed() {
    assert!(!parent_moved(Some(ident(5, 10)), ident(5, 10)));
    assert!(parent_moved(Some(ident(5, 11)), ident(5, 10)));
    assert!(parent_moved(Some(ident(6, 10)), ident(5, 10)));
    assert!(parent_moved(None, ident(5, 10)));
}

// ---- the whole command ----

#[test]
fn the_command_succeeds_where_nothing_is_complained_of() {
    let flags = |force: bool, verbose: bool| Flags {
        force,
        interactive: false,
        interactive_once: false,
        verbose,
    };
    let moved = || Ok::<Done, PutErr>(Done::Moved(b"/t/files/x".to_vec()));
    let (ok, said) = after_operand(true, flags(false, true), b"x", &moved());
    assert!(ok);
    assert!(matches!(said, Said::Word(s) if s == "trashed 'x' -> /t/files/x"));
    let (ok, said) = after_operand(true, flags(false, false), b"x", &moved());
    assert!(ok);
    assert!(matches!(said, Said::Nothing));
    // A complaint fails the command, and what follows does not mend it.
    let gone: Result<Done, PutErr> = Err(not_found("gone"));
    let (ok, said) = after_operand(true, flags(false, false), b"x", &gone);
    assert!(!ok);
    assert!(matches!(said, Said::Complaint(s) if s == "cannot trash 'x': gone"));
    assert!(!after_operand(false, flags(false, true), b"y", &moved()).0);
    // -f passes over what is not there.
    let (ok, said) = after_operand(true, flags(true, true), b"x", &gone);
    assert!(ok);
    assert!(matches!(said, Said::Nothing));
    let declined: Result<Done, PutErr> = Ok(Done::Declined);
    assert!(after_operand(true, flags(false, true), b"x", &declined).0);
}

// ---- questions and words ----

#[test]
fn when_to_ask() {
    let f = |force: bool, interactive: bool, interactive_once: bool| Flags {
        force,
        interactive,
        interactive_once,
        verbose: false,
    };
    assert!(asks_once(f(false, false, true), 4, false));
    assert!(!asks_once(f(false, false, true), 3, false));
    assert!(asks_once(f(false, false, true), 1, true));
    assert!(!asks_once(f(true, false, true), 9, true));
    assert!(asks_each(f(false, true, false)));
    assert!(!asks_each(f(true, true, false)));
    assert!(once_question(4).contains('4'));
    assert!(each_question(b"a\x1b").contains("a\\x1b"));
}

#[test]
fn what_is_printed() {
    assert_eq!(Done::Declined.print(b"x"), None);
    let moved = Done::Moved(b"/t/files/x".to_vec()).print(b"x").unwrap();
    let copied = Done::Copied(b"/t/files/x".to_vec(), 1536).print(b"x").unwrap();
    assert!(moved.contains("/t/files/x") && copied.contains("/t/files/x"));
    assert!(copied.contains("1.5 KiB"), "{copied}");
    assert_eq!(show(b"a\tb"), "a\\tb");
}

#[test]
fn paths_in_an_info_are_relative_to_the_topdir() {
    let mut t = home_trash();
    assert_eq!(path_field(&t, b"/home/u/x"), b"/home/u/x");
    t.kind = Kind::User;
    t.base = b"/mnt/d".to_vec();
    assert_eq!(path_field(&t, b"/mnt/d/sub/x"), b"sub/x");
}

#[test]
fn a_shared_trash_that_is_not_used_is_named() {
    let sticky = Entry::Dir { uid: 0, sticky: true };
    let plain = Entry::Dir { uid: 0, sticky: false };
    assert_eq!(admin_notice(Entry::Missing, b"/m/.Trash"), None);
    assert_eq!(admin_notice(sticky, b"/m/.Trash"), None);
    for e in [plain, Entry::Other] {
        assert_eq!(
            admin_notice(e, b"/m/.Tr\nash").unwrap(),
            "/m/.Tr\\nash is not a sticky directory; not using it"
        );
    }
    assert_eq!(
        admin_failure(b"/m/.Trash/7", "Permission denied", b"/m/.Trash-7"),
        "cannot create /m/.Trash/7: Permission denied; using /m/.Trash-7"
    );
}
