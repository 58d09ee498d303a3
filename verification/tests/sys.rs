//! Facts of the system: renames, locks, routes, manifests.
use rip::mounts::Mounts;
use rip::sys::{
    attempt, cp_failure, judge, lock, noreplace_with, numbered_name, route, Attempt, Attrs, Dev,
    Ident, LockStep, Manifest, Meta, Probe, Stamp, Then, Verdict, EACCES, EAGAIN, EEXIST, EINVAL,
    ENOSYS, S_IFDIR, S_IFLNK, S_IFREG, TRIES,
};
use rip::walk::{count_leaf, Walk};

fn synthetic_file_meta(dev: Dev, ino: u64, size: u64, mtime: (i64, u32)) -> Meta {
    let mtime = Stamp {
        secs: mtime.0,
        nanos: mtime.1,
    };
    Meta {
        id: Ident { dev, ino, mnt: 0 },
        mode: S_IFREG,
        uid: 0,
        nlink: 1,
        size,
        mtime,
        ctime: mtime,
        attrs: Attrs {
            mount_root: false,
            immutable: false,
            append: false,
        },
    }
}

#[test]
fn noreplace_with_einval_and_exists_gives_eexist_without_plain_rename() {
    let result = noreplace_with(
        || Err(EINVAL),
        || Ok(true),
        || panic!("the plain rename must not run when the target exists"),
    );
    let err = result.unwrap_err();
    assert_eq!(Some(err), Some(EEXIST));
}

#[test]
fn noreplace_with_einval_and_absent_runs_plain_rename() {
    let result = noreplace_with(|| Err(EINVAL), || Ok(false), || Ok(()));
    assert!(result.is_ok());
}

#[test]
fn noreplace_with_other_errors_pass_through() {
    let result = noreplace_with(
        || Err(EACCES),
        || panic!("the look must not run for a non-EINVAL error"),
        || panic!("rename() must not run for a non-EINVAL error"),
    );
    let err = result.unwrap_err();
    assert_eq!(Some(err), Some(EACCES));
}

#[test]
fn noreplace_with_ok_passes_through() {
    let result = noreplace_with(
        || Ok(()),
        || panic!("the look must not run on success"),
        || panic!("rename() must not run on success"),
    );
    assert!(result.is_ok());
}

#[test]
fn noreplace_passes_on_a_failed_look() {
    let result = noreplace_with(
        || Err(EINVAL),
        || Err(EACCES),
        || panic!("rename() must not run when nobody knows what is there"),
    );
    assert_eq!(result, Err(EACCES));
}

#[test]
fn manifest_keeps_colliding_ino_on_different_dev_distinct() {
    let dev_a = Dev(1, 0);
    let dev_b = Dev(1, 1);
    let colliding_ino = 257;
    let file_a = synthetic_file_meta(dev_a, colliding_ino, 5, (100, 0));
    let file_b = synthetic_file_meta(dev_b, colliding_ino, 9, (200, 0));

    let mut w = Walk {
        size: 0,
        problem: None,
        manifest: Manifest::default(),
    };
    count_leaf(&file_a, &mut w);
    count_leaf(&file_b, &mut w);

    assert_eq!(
        w.size,
        5 + 9,
        "colliding ino on a different dev undercounted the walk size"
    );
    assert!(
        w.manifest.unchanged(&file_a),
        "file_a's manifest entry must survive file_b's colliding-ino sighting"
    );
    assert!(w.manifest.unchanged(&file_b));
}

#[test]
fn a_second_link_is_not_counted_again() {
    let file = synthetic_file_meta(Dev(1, 0), 300, 5, (100, 0));
    let mut w = Walk::new();
    w.leaf(b"a".to_vec(), &file);
    w.leaf(b"b".to_vec(), &file);
    assert_eq!(w.size, 5);
    assert!(w.manifest.vouches(&b"a".to_vec(), &file));
    assert!(w.manifest.vouches(&b"b".to_vec(), &file));
    assert!(!w.manifest.vouches(&b"c".to_vec(), &file));
}

#[test]
fn only_what_the_copy_holds_is_vouched_for() {
    let a = synthetic_file_meta(Dev(1, 0), 300, 5, (100, 0));
    let b = synthetic_file_meta(Dev(1, 0), 301, 6, (100, 0));
    let mut source = Manifest::new();
    source.record(b"a".to_vec(), &a);
    source.record(b"b".to_vec(), &b);
    let mut copied = Manifest::new();
    // The copy has other inodes; size, kind and time count.
    copied.record(b"a".to_vec(), &synthetic_file_meta(Dev(9, 0), 7, 5, (100, 0)));
    copied.record(b"b".to_vec(), &synthetic_file_meta(Dev(9, 0), 8, 4, (100, 0)));
    source.verify_copy(&copied);
    assert!(source.vouches(&b"a".to_vec(), &a));
    assert!(!source.vouches(&b"b".to_vec(), &b));
    // A changed file is not vouched for either.
    let later = synthetic_file_meta(Dev(1, 0), 300, 5, (101, 0));
    assert!(!source.vouches(&b"a".to_vec(), &later));
}

#[test]
fn kinds_of_files() {
    let mut m = synthetic_file_meta(Dev(1, 0), 1, 0, (0, 0));
    assert!(m.is_reg() && !m.is_dir() && !m.is_symlink());
    m.mode = S_IFDIR | 0o1777;
    assert!(m.is_dir() && m.sticky());
    m.mode = S_IFLNK | 0o777;
    assert!(m.is_symlink() && !m.is_mount_root());
    m.attrs = Attrs::masked(0x2000 | 0x10, 0x2000);
    assert!(m.is_mount_root() && !m.attrs.immutable);
    let other = Ident {
        mnt: 5,
        ..m.id
    };
    assert!(m.id.same_file(&other));
    assert!(!m.id.same_file(&Ident { ino: 2, ..m.id }));
}

#[test]
fn locks_wait_or_do_without() {
    assert_eq!(lock(false, Ok(())), LockStep::Held);
    assert_eq!(lock(false, Err(EAGAIN)), LockStep::Wait);
    assert_eq!(lock(false, Err(ENOSYS)), LockStep::Unsupported);
    assert_eq!(lock(false, Err(EACCES)), LockStep::Fail);
    assert_eq!(lock(true, Ok(())), LockStep::Held);
}

#[test]
fn a_route_is_used_only_where_it_leads() {
    let a = Ident {
        dev: Dev(1, 0),
        ino: 5,
        mnt: 3,
    };
    let b = Ident {
        dev: Dev(1, 0),
        ino: 6,
        mnt: 4,
    };
    let via = |i: Ident| Probe::Is(Ident { mnt: 9, ..i });
    assert_eq!(judge(9, via(a), a, via(b), b), Verdict::Use);
    assert_eq!(judge(9, Probe::CannotOpen, a, via(b), b), Verdict::Next);
    assert_eq!(judge(9, via(b), a, via(b), b), Verdict::Next);
    assert_eq!(judge(8, via(a), a, via(b), b), Verdict::Next);
}

#[test]
fn routes_pass_by_read_only_mounts() {
    let ms = Mounts::parse(
        b"10 1 0:30 /sub/a /a rw - btrfs /dev/x rw\n\
          11 1 0:30 /sub/b /b rw - btrfs /dev/x rw\n\
          12 1 0:30 /sub /all ro - btrfs /dev/x rw\n\
          13 1 0:30 /sub /whole rw - btrfs /dev/x rw\n",
    );
    let at = |mnt: u64| Ident {
        dev: Dev(0, 30),
        ino: 1,
        mnt,
    };
    let found = route(&ms, b"/a/x", at(10), b"/b/files", at(11));
    assert_eq!(
        found,
        vec![(13, b"/whole/a/x".to_vec(), b"/whole/b/files".to_vec())]
    );
}

#[test]
fn names_are_tried_until_one_is_free() {
    assert_eq!(attempt(0, Attempt::Done), Then::Won);
    assert_eq!(attempt(0, Attempt::Failed), Then::Lost);
    assert_eq!(attempt(0, Attempt::Exists), Then::Again);
    assert_eq!(attempt(TRIES, Attempt::Exists), Then::Spent);
    assert_eq!(numbered_name("del", 42, 7), b"del.42.7");
    assert_ne!(numbered_name("del", 42, 7), numbered_name("del", 42, 8));
    assert!(cp_failure("exit status: 1", "cp: no space\n").contains("no space"));
}
