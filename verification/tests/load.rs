//! What is read of trash directories.
use rip::dates::DateTime;
use rip::info::{encode, Kind};
use rip::load::{
    classify, may_read_info, read_item, reread_info, InfoFacts, InfoName, InfoRead, Loader, Look,
};
use rip::mounts::Mounts;
use rip::put::path_field;
use rip::sys::{Attrs, Dev, Ident, Meta, Stamp, EACCES, ELOOP, ENOENT, ENOTDIR, S_IFDIR, S_IFREG};
use rip::trash::{
    data_home, discover, finish_open, home_path, info_file_name, is_malformed_entry_name,
    is_shared, open_trash, places, push_new, push_skipped, silent_skip, strip_info_suffix, Gate, Sub, Trash,
};

fn ident(ino: u64) -> Ident {
    Ident {
        dev: Dev(1, 0),
        ino,
        mnt: 1,
    }
}

fn day() -> DateTime {
    DateTime {
        year: 2026,
        month: 1,
        day: 1,
        hour: 0,
        minute: 0,
        second: 0,
        nano: 0,
    }
}

fn trash() -> Trash {
    Trash {
        kind: Kind::Home,
        path: b"/home/u/.local/share/Trash".to_vec(),
        base: b"/home/u/.local/share".to_vec(),
        id: ident(50),
        files_id: ident(51),
    }
}

fn file(ino: u64) -> Meta {
    Meta {
        id: ident(ino),
        mode: S_IFREG | 0o644,
        uid: 1000,
        nlink: 1,
        size: 4,
        mtime: Stamp { secs: 0, nanos: 0 },
        ctime: Stamp { secs: 0, nanos: 0 },
        attrs: Attrs {
            mount_root: false,
            immutable: false,
            append: false,
        },
    }
}

fn facts(files: Look, bytes: Option<&[u8]>) -> InfoFacts {
    InfoFacts {
        lstat: Some(ident(70)),
        files,
        read: bytes.map(|b| InfoRead {
            id: ident(70),
            bytes: b.to_vec(),
        }),
        changed: day(),
    }
}

const GOOD: &[u8] = b"[Trash Info]\nPath=/home/u/x\nDeletionDate=2026-02-02T00:00:00\n";

#[test]
fn items_orphans_and_dangling_infos_are_told_apart() {
    let t = trash();
    let mut l = Loader::new();
    l.start();
    l.load_info_entry(0, &t, b"good", &facts(Look::Found(file(1)), Some(GOOD)));
    l.load_info_entry(0, &t, b"bad", &facts(Look::Found(file(2)), Some(b"nonsense")));
    l.load_info_entry(0, &t, b"closed", &facts(Look::Found(file(3)), None));
    l.load_info_entry(0, &t, b"lone", &facts(Look::Missing, Some(GOOD)));
    l.load_info_entry(0, &t, b"odd", &facts(Look::Failed, Some(GOOD)));
    let mut gone = facts(Look::Found(file(9)), Some(GOOD));
    gone.lstat = None;
    l.load_info_entry(0, &t, b"gone", &gone);
    l.load_malformed(0, &t, b"..", Some(ident(71)));
    for name in ["good", "bad", "closed", "stray"] {
        l.load_file(0, &name.as_bytes().to_vec(), Some(ident(4)), day());
    }
    l.load_file(0, &b"vanished".to_vec(), None, day());
    l.unreadable(&t, "files/", "denied");

    let c = l.c;
    assert_eq!(c.items.len(), 1);
    assert_eq!(c.items[0].name, b"good");
    assert_eq!(c.items[0].original, b"/home/u/x");
    assert_eq!(c.items[0].date.month, 2);
    let orphans: Vec<&[u8]> = c.orphans.iter().map(|o| o.name.as_slice()).collect();
    assert_eq!(orphans, vec![&b"bad"[..], &b"closed"[..], &b"stray"[..]]);
    assert!(c.orphans[0].info.is_some() && c.orphans[2].info.is_none());
    let dangling: Vec<&[u8]> = c.dangling.iter().map(|d| d.name.as_slice()).collect();
    assert_eq!(dangling, vec![&b"lone"[..], &b".."[..]]);
    assert_eq!(
        c.warnings,
        vec![
            "/home/u/.local/share/Trash: bad: malformed .trashinfo",
            "/home/u/.local/share/Trash: closed: malformed .trashinfo",
            "/home/u/.local/share/Trash: ..: malformed .trashinfo",
            "/home/u/.local/share/Trash: reading files/: denied",
        ]
    );
}

#[test]
fn a_topdir_info_reaches_no_further_than_its_topdir() {
    let mut t = trash();
    t.kind = Kind::User;
    t.base = b"/mnt/d".to_vec();
    let mut l = Loader::new();
    for (name, path) in [("dotdot", "../../x"), ("outside", "/etc/x"), ("nul", "%00"), ("none", "")] {
        let text = format!("[Trash Info]\nPath={path}\nDeletionDate=2026-01-01T00:00:00\n");
        l.load_info_entry(
            0,
            &t,
            name.as_bytes(),
            &facts(Look::Found(file(1)), Some(text.as_bytes())),
        );
    }
    l.load_info_entry(
        0,
        &t,
        b"in",
        &facts(
            Look::Found(file(1)),
            Some(b"[Trash Info]\nPath=sub/x\nDeletionDate=2026-01-01T00:00:00\n"),
        ),
    );
    assert_eq!(l.c.orphans.len(), 4);
    assert_eq!(l.c.items.len(), 1);
    assert_eq!(l.c.items[0].original, b"/mnt/d/sub/x");
}

#[test]
fn names_of_infos() {
    assert_eq!(info_file_name(b"x~1"), b"x~1.trashinfo");
    assert_eq!(strip_info_suffix(b"x~1.trashinfo"), Some(b"x~1".to_vec()));
    assert_eq!(strip_info_suffix(b"x"), None);
    for bad in [&b""[..], b".", b"..", b"a/b"] {
        assert!(is_malformed_entry_name(bad));
    }
    assert!(!is_malformed_entry_name(b"..."));
    assert!(matches!(classify(b"x"), InfoName::Stray));
    assert!(matches!(classify(b".trashinfo"), InfoName::Malformed(n) if n.is_empty()));
    assert!(matches!(classify(b"a.trashinfo"), InfoName::Entry(n) if n == b"a"));
}

#[test]
fn infos_are_read_up_to_a_limit() {
    assert!(may_read_info(true, 65536));
    assert!(!may_read_info(true, 65537));
    assert!(!may_read_info(false, 10));
    assert_eq!(reread_info(vec![b'x'; 65536]).len(), 65536);
    assert_eq!(reread_info(vec![b'x'; 65537]).len(), 0);
}

// ---- finding trash directories ----

#[test]
fn where_the_home_trash_is() {
    let v = |s: &str| Some(s.as_bytes().to_vec());
    assert_eq!(data_home(v("/d"), v("/home/u")), Ok(b"/d".to_vec()));
    assert_eq!(home_path(v("rel"), v("/home/u")), Ok(b"/home/u/.local/share/Trash".to_vec()));
    assert_eq!(home_path(v("/d"), None), Ok(b"/d/Trash".to_vec()));
    assert!(data_home(None, None).is_err());
    assert!(data_home(None, v("u")).is_err());
}

#[test]
fn trash_directories_of_others_are_passed_by() {
    assert_eq!(open_trash(Ok(1000), 1000), Gate::Go);
    assert_ne!(open_trash(Ok(0), 1000), Gate::Go);
    assert_eq!(open_trash(Err(ENOENT), 1000), Gate::Skip);
    assert!(silent_skip(ENOENT) && silent_skip(ELOOP) && silent_skip(ENOTDIR));
    assert!(silent_skip(EACCES));
    assert!(!silent_skip(5));
}

#[test]
fn half_a_trash_is_reported() {
    let open = |files: Sub, info: Sub, missing_ok: bool| {
        finish_open(
            Kind::Home,
            b"/t".to_vec(),
            b"/".to_vec(),
            ident(1),
            files,
            info,
            missing_ok,
        )
    };
    assert!(matches!(
        open(Sub::Opened(ident(2)), Sub::Opened(ident(3)), true),
        Ok(Some(_))
    ));
    assert!(matches!(open(Sub::Missing, Sub::Missing, true), Ok(None)));
    let half = match open(Sub::Opened(ident(2)), Sub::Missing, true) {
        Err(e) => e,
        Ok(_) => panic!("half a trash is an error"),
    };
    assert!(half.contains("info/ subdirectory is missing"), "{half}");
    let mut out = vec![];
    let mut warn = vec![];
    push_new(&mut out, Err(half), b"/t", &mut warn);
    assert_eq!((out.len(), warn.len()), (0, 1));
    for _ in 0..2 {
        push_new(
            &mut out,
            open(Sub::Opened(ident(2)), Sub::Opened(ident(3)), true),
            b"/t",
            &mut warn,
        );
    }
    // One directory under two names counts once.
    assert_eq!((out.len(), warn.len()), (1, 1));
}

#[test]
fn only_a_sticky_directory_is_shared() {
    let with = |mode: u32| Meta { mode, ..file(3) };
    assert!(is_shared(Some(with(S_IFDIR | 0o1777))));
    assert!(!is_shared(Some(with(S_IFDIR | 0o777))));
    assert!(!is_shared(Some(with(S_IFREG | 0o1777))));
    assert!(!is_shared(None));
}

#[test]
fn what_was_skipped_is_kept_in_mind() {
    let mut skipped = vec![];
    let half = || Err("its info/ subdirectory is missing".to_string());
    push_skipped(&mut skipped, &half(), b"/m/.Trash-1000", Some(ident(70)));
    push_skipped(&mut skipped, &half(), b"/n/.Trash-1000", None);
    push_skipped(&mut skipped, &Ok(None), b"/o/.Trash-1000", Some(ident(71)));
    assert_eq!(skipped.len(), 1);
    assert_eq!(skipped[0].path, b"/m/.Trash-1000");
    assert_eq!(skipped[0].id, ident(70));
}

#[test]
fn every_entry_is_one_item_or_orphan() {
    let t = trash();
    let mut l = Loader::new();
    l.start();
    let text = encode(b"/home/u/a", day());
    l.load_info_entry(0, &t, b"a", &facts(Look::Found(file(11)), Some(&text)));
    l.load_info_entry(0, &t, b"b", &facts(Look::Found(file(12)), Some(b"nonsense")));
    l.load_info_entry(0, &t, b"c", &facts(Look::Failed, Some(&text)));
    l.load_info_entry(0, &t, b"d", &facts(Look::Missing, Some(&text)));
    for (i, n) in [b"a", b"b", b"c", b"e"].iter().enumerate() {
        l.load_file(0, &n.to_vec(), Some(ident(11 + i as u64)), day());
    }
    let items: Vec<&[u8]> = l.c.items.iter().map(|i| i.name.as_slice()).collect();
    let orphans: Vec<&[u8]> = l.c.orphans.iter().map(|o| o.name.as_slice()).collect();
    assert_eq!(items, vec![&b"a"[..]]);
    assert_eq!(orphans, vec![&b"b"[..], &b"c"[..], &b"e"[..]]);
    assert_eq!(l.c.dangling.len(), 1);
}

#[test]
fn topdirs_are_looked_for_on_every_mount() {
    let ms = Mounts::parse(
        b"10 1 8:1 / / rw - ext4 /dev/sda1 rw\n12 10 8:3 / /mnt/d rw - ext4 /dev/sda3 rw\n",
    );
    let found = discover(&ms, 1000);
    let users: Vec<&[u8]> = found.iter().map(|s| s.user.as_slice()).collect();
    assert_eq!(users, vec![&b"/.Trash-1000"[..], &b"/mnt/d/.Trash-1000"[..]]);
    let p = places(b"/mnt/d", 1000);
    assert_eq!(p.admin, b"/mnt/d/.Trash");
    assert_eq!(p.admin_uid, b"/mnt/d/.Trash/1000");
    assert_eq!(p.base, b"/mnt/d");
}

#[test]
fn what_a_put_writes_a_load_reads_back() {
    let home = trash();
    let top = Trash {
        kind: Kind::User,
        path: b"/m/.Trash-1000".to_vec(),
        base: b"/m".to_vec(),
        id: ident(60),
        files_id: ident(61),
    };
    let names: [&[u8]; 4] = [b"/m/a", b"/m/sub/b c%2F", b"/m/\xff\n=", b"/m/~/[x]"];
    for t in [&home, &top] {
        for path in names {
            let text = encode(&path_field(t, path), day());
            let (original, date) = read_item(t.kind, &t.base, &text).unwrap();
            assert_eq!(original, path);
            assert_eq!(date, day());
        }
    }
    // The topdir's info holds the path beneath it.
    assert_eq!(
        encode(&path_field(&top, b"/m/sub/b c"), day()),
        b"[Trash Info]\nPath=sub/b%20c\nDeletionDate=2026-01-01T00:00:00\n"
    );
    assert!(read_item(Kind::User, b"/m", b"").is_none());
    assert!(read_item(Kind::User, b"/m", &encode(b"/elsewhere", day())).is_none());
}
