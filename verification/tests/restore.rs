//! `list`, `restore`, `undo` and `purge`.
use rip::back::{
    back_complaint, back_error, back_question, beside_name, outcome, restore_item, Back, BackArgs,
    BackErr, BackFact, End, Outcome, Progress, Way,
};
use rip::dates::DateTime;
use rip::info::{parse_date, Kind};
use rip::load::{Contents, InfoRead, Item, Orphan, Which};
use rip::picker::{before_pick, chosen, fzf_args, fzf_end, fzf_input, fzf_picks, Picked};
use rip::restore::{
    find, list, parents_first, picked_once, purge, purge_group, purge_listing, purge_question,
    resolve, resolve_parts, restore, restored_line, scope, shown_path, trash_path, undo, Asked,
    Deed, Found,
};
use rip::sys::{Dev, Ident};
use rip::trash::Trash;

fn ident(ino: u64) -> Ident {
    Ident {
        dev: Dev(1, 0),
        ino,
        mnt: 1,
    }
}

fn when(s: &str) -> DateTime {
    parse_date(s.as_bytes()).unwrap()
}

fn home() -> Trash {
    Trash {
        kind: Kind::Home,
        path: b"/home/u/.local/share/Trash".to_vec(),
        base: b"/home/u/.local/share".to_vec(),
        id: ident(50),
        files_id: ident(51),
    }
}

fn item(name: &[u8], original: &[u8], date: &str) -> Item {
    Item {
        trash: 0,
        name: name.to_vec(),
        original: original.to_vec(),
        date: when(date),
        entry: ident(1),
        info: InfoRead {
            id: ident(2),
            bytes: vec![],
        },
    }
}

fn with(items: Vec<Item>) -> Contents {
    Contents {
        items,
        orphans: vec![Orphan {
            trash: 0,
            name: b"orph".to_vec(),
            date: when("2026-01-01T00:00:00"),
            entry: ident(3),
            info: None,
        }],
        dangling: vec![],
        warnings: vec![],
    }
}

fn two() -> Contents {
    with(vec![
        item(b"y", b"/home/u/Documents/y", "2026-02-02T00:00:00"),
        item(b"x", b"/home/u/Downloads/x", "2026-01-01T00:00:00"),
    ])
}

// ---- list ----

#[test]
fn listing_by_scope() {
    let c = two();
    assert_eq!(
        list(&c, b"/home/u/Downloads", false, false),
        b"2026-01-01 00:00:00  x\n"
    );
    assert_eq!(
        list(&c, b"/home/u/Downloads", true, true),
        b"2026-01-01 00:00:00\tx\x002026-02-02 00:00:00\t/home/u/Documents/y\0"
    );
    assert_eq!(list(&c, b"/nowhere", false, false), b"");
    // From the root everything is relative.
    assert_eq!(
        list(&c, b"/", false, true),
        b"2026-01-01 00:00:00\thome/u/Downloads/x\x002026-02-02 00:00:00\thome/u/Documents/y\0"
    );
}

#[test]
fn hostile_names_are_escaped_for_people_only() {
    let c = with(vec![item(b"x", b"/w/\x1bevil\n", "2026-01-01T00:00:00")]);
    assert_eq!(
        list(&c, b"/w", false, false),
        b"2026-01-01 00:00:00  \\x1bevil\\n\n"
    );
    assert_eq!(list(&c, b"/w", false, true), b"2026-01-01 00:00:00\t\x1bevil\n\0");
}

#[test]
fn the_current_directory_itself_is_a_dot() {
    assert_eq!(shown_path(b"/home/u", b"/home/u"), b".");
    assert_eq!(shown_path(b"/home/u/a/b", b"/home/u/"), b"a/b");
    assert_eq!(shown_path(b"/home/ux", b"/home/u"), b"/home/ux");
    assert_eq!(restored_line(b"/home/u/a\tb", b"/home/u"), "a\\tb\n");
}

// ---- what a PATH names ----

fn asked(args: &[&str]) -> Vec<Asked> {
    args.iter()
        .map(|a| Asked {
            arg: a.as_bytes().to_vec(),
            path: resolve(b"/home/u", a.as_bytes(), None),
        })
        .collect()
}

fn one(r: Result<Vec<Found>, String>) -> Found {
    let mut v = r.unwrap();
    assert_eq!(v.len(), 1);
    v.pop().unwrap()
}

#[test]
fn paths_are_resolved() {
    assert_eq!(resolve(b"/home/u", b"./a//b/", None), b"/home/u/a/b");
    assert_eq!(
        resolve(b"/home/u", b"a/b", Some(b"/real/a".to_vec())),
        b"/real/a/b"
    );
    assert_eq!(
        resolve_parts(b"/home/u", b"a/b"),
        Some((b"/home/u/a".to_vec(), b"b".to_vec()))
    );
    assert_eq!(resolve_parts(b"/home/u", b"/"), None);
    assert_eq!(resolve_parts(b"/home/u", b"a/.."), None);
    assert_eq!(trash_path(&home(), b"x"), b"/home/u/.local/share/Trash/files/x");
}

#[test]
fn an_item_is_found_by_its_old_and_by_its_new_place() {
    let ts = vec![home()];
    let c = two();
    for a in ["Downloads/x", "/home/u/Downloads/x", "/home/u/.local/share/Trash/files/x"] {
        match one(restore(&ts, &c, &asked(&[a]), false)) {
            Found::One(Which::Item(1)) => {}
            f => panic!("{a}: {f:?}"),
        }
    }
    assert!(matches!(find(&ts, &c, b"/nothing/here"), Found::Nothing));
}

#[test]
fn an_orphan_can_only_be_purged() {
    let ts = vec![home()];
    let c = two();
    let a = asked(&["/home/u/.local/share/Trash/files/orph"]);
    let err = restore(&ts, &c, &a, true).unwrap_err();
    assert_eq!(
        err,
        "cannot restore '/home/u/.local/share/Trash/files/orph': its .trashinfo is missing or \
         malformed; use `rip purge` to delete it"
    );
    assert!(matches!(one(purge(&ts, &c, &a, false)), Found::One(Which::Orphan(0))));
}

#[test]
fn several_items_of_one_path_need_a_choice() {
    let ts = vec![home()];
    let c = with(vec![
        item(b"v2", b"/home/u/dup", "2026-01-02T00:00:00"),
        item(b"v1", b"/home/u/dup", "2026-01-01T00:00:00"),
    ]);
    let a = asked(&["dup"]);
    let err = restore(&ts, &c, &a, false).unwrap_err();
    assert_eq!(
        err,
        "cannot restore 'dup': several trashed items have this path; name one of them:\n  \
         2026-01-01 00:00:00  /home/u/.local/share/Trash/files/v1\n  \
         2026-01-02 00:00:00  /home/u/.local/share/Trash/files/v2"
    );
    match one(restore(&ts, &c, &a, true)) {
        Found::Several(v) => {
            let which: Vec<Which> = v.iter().map(|d| d.which).collect();
            assert_eq!(which, vec![Which::Item(1), Which::Item(0)]);
        }
        f => panic!("{f:?}"),
    }
}

#[test]
fn one_bad_path_spoils_the_selection() {
    let ts = vec![home()];
    let err = purge(&ts, &two(), &asked(&["Downloads/x", "no", "worse"]), true).unwrap_err();
    assert_eq!(err, "cannot delete 'no': nothing in the trash has this path");
}

// ---- batches ----

#[test]
fn undo_takes_the_newest_and_parents_first() {
    let c = with(vec![
        item(b"old", b"/home/u/old", "2026-01-01T00:00:00"),
        item(b"dir_f", b"/home/u/dir/f", "2026-02-02T00:00:00"),
        item(b"dir", b"/home/u/dir", "2026-02-02T00:00:00"),
    ]);
    assert_eq!(undo(&c).unwrap(), vec![2, 1]);
    let none = Contents {
        items: vec![],
        orphans: vec![],
        dangling: vec![],
        warnings: vec![],
    };
    assert_eq!(undo(&none), Err("nothing to undo"));
    // Picked twice is picked once.
    assert_eq!(parents_first(&c, &vec![1, 0, 1, 2]), vec![0, 2, 1]);
}

#[test]
fn children_wait_for_their_parent() {
    let c = with(vec![
        item(b"dir", b"/home/u/dir", "2026-02-02T00:00:00"),
        item(b"f", b"/home/u/dir/f", "2026-02-02T00:00:00"),
        item(b"g", b"/home/u/dirg", "2026-02-02T00:00:00"),
    ]);
    let mut p = Progress::new();
    assert_eq!(p.skip(&c, 0), None);
    p.note(0, Outcome::Declined);
    assert!(p.ok);
    assert_eq!(
        p.skip(&c, 1).unwrap(),
        "cannot restore '/home/u/dir/f': its parent /home/u/dir was not restored; it stays in \
         the trash"
    );
    assert!(!p.ok);
    assert_eq!(p.skip(&c, 2), None);
    p.note(2, Outcome::Restored);
    assert_eq!(p.missing, vec![0, 1]);
    p.note(2, Outcome::Failed);
    assert_eq!(p.missing.len(), 3);
}

// ---- one item ----

fn args(rename: bool, yes: bool) -> BackArgs {
    BackArgs {
        rename,
        yes,
        threshold: 10,
    }
}

fn go(a: BackArgs, facts: &[BackFact]) -> Back {
    facts
        .iter()
        .fold(Back::Parent, |at, f| restore_item(a, at, *f))
}

#[test]
fn an_item_is_renamed_back() {
    let way = [BackFact::Done, BackFact::Absent, BackFact::Through, BackFact::Done, BackFact::Same, BackFact::Same, BackFact::Done, BackFact::Same, BackFact::Done];
    assert_eq!(go(args(false, false), &way), Back::Done(0));
    assert_eq!(go(args(false, false), &way[..6]), Back::Rename(0));
    // Something else has the name by then.
    let changed = [BackFact::Done, BackFact::Absent, BackFact::Through, BackFact::Done, BackFact::Same, BackFact::Different, BackFact::Done];
    assert_eq!(go(args(false, false), &changed), Back::Failed(BackErr::Changed));
}

#[test]
fn a_path_in_use_is_refused_or_passed_by() {
    assert_eq!(
        go(args(false, false), &[BackFact::Done, BackFact::Present]),
        Back::Rollback(End::Failed(BackErr::Exists))
    );
    assert_eq!(
        go(args(true, false), &[BackFact::Done, BackFact::Present, BackFact::Present, BackFact::Absent]),
        Back::Route(2)
    );
    assert_eq!(beside_name(b"x", 0), b"x");
    assert_eq!(beside_name(b"x", 2), b"x~2");
    let late = [BackFact::Done, BackFact::Absent, BackFact::Through, BackFact::Done, BackFact::Same, BackFact::Same, BackFact::Exists];
    assert_eq!(go(args(true, false), &late), Back::Again(1));
    assert_eq!(
        go(args(false, false), &late),
        Back::Rollback(End::Failed(BackErr::Exists))
    );
}

#[test]
fn an_item_is_copied_back_with_consent() {
    let far = [BackFact::Done, BackFact::Absent, BackFact::Apart, BackFact::Size(11)];
    assert_eq!(go(args(false, false), &far), Back::Ask(0));
    assert_eq!(go(args(false, true), &far), Back::Lock(0, Way::Copy));
    assert_eq!(
        go(args(false, false), &[BackFact::Done, BackFact::Absent, BackFact::Apart, BackFact::Size(10)]),
        Back::Lock(0, Way::Copy)
    );
    let ask = |f: BackFact| go(args(false, false), &[BackFact::Done, BackFact::Absent, BackFact::Apart, BackFact::Size(11), f, BackFact::Done]);
    assert_eq!(ask(BackFact::No), Back::Declined);
    assert_eq!(ask(BackFact::CannotAsk), Back::Failed(BackErr::CannotAsk));
    assert_eq!(ask(BackFact::Yes), Back::Check(0, Way::Copy));
    let copied = [
        BackFact::Done, BackFact::Absent, BackFact::Apart, BackFact::Size(1), BackFact::Done, BackFact::Same, BackFact::Done, BackFact::Same, BackFact::Done,
        BackFact::Done, BackFact::Done, BackFact::Done,
    ];
    assert_eq!(go(args(false, false), &copied), Back::Done(0));
    let full = [
        BackFact::Done, BackFact::Absent, BackFact::Apart, BackFact::Size(1), BackFact::Done, BackFact::Same, BackFact::Done, BackFact::Same, BackFact::Failed,
        BackFact::Done, BackFact::Done,
    ];
    assert_eq!(go(args(false, false), &full), Back::Failed(BackErr::Copy));
    // A rename that would cross filesystems becomes a copy, and is asked
    // about without the lock.
    let crossed = [
        BackFact::Done, BackFact::Absent, BackFact::Through, BackFact::Done, BackFact::Same, BackFact::Same, BackFact::Crossed, BackFact::Done, BackFact::Size(99),
    ];
    assert_eq!(go(args(false, false), &crossed), Back::Ask(0));
}

#[test]
fn what_is_said_of_an_item() {
    let e = back_error(BackErr::Exists, b"/t/files/blocked_item", b"/x", "");
    assert!(e.contains("--rename") && e.contains("blocked_item"), "{e}");
    assert_eq!(back_error(BackErr::Io, b"", b"", "denied"), "denied");
    assert!(back_error(BackErr::Copy, b"", b"", "full").contains("full"));
    assert!(back_error(BackErr::Changed, b"", b"", "").contains("changed"));
    assert!(back_error(BackErr::Spent, b"", b"", "").contains("100000"));
    assert!(back_error(BackErr::Leftover(0), b"", b"/x", "busy").contains("/x"));
    assert!(back_question(b"/x", 2048).contains("2.0 KiB"));
}

// ---- fzf ----

#[test]
fn fzf_is_asked_for_records() {
    assert_eq!(
        fzf_args(Deed::Restore),
        vec![
            "--multi",
            "--read0",
            "--print0",
            "--delimiter=\t",
            "--with-nth=2..",
            "--tiebreak=index",
            "--prompt=restore> ",
        ]
    );
    assert_eq!(fzf_args(Deed::Purge)[6], "--prompt=purge> ");
    let c = two();
    let p = scope(&c, b"/home/u", true);
    let text = fzf_input(&c, b"/home/u", &p);
    assert_eq!(
        text,
        b"0\t2026-01-01 00:00:00\tDownloads/x\x001\t2026-02-02 00:00:00\tDocuments/y\0"
    );
    // What comes back is what was chosen.
    assert_eq!(fzf_picks(&text, 2), vec![0, 1]);
    assert_eq!(fzf_picks(b"1\t2026-02-02 00:00:00\tDocuments/y\0", 2), vec![1]);
    assert_eq!(fzf_picks(b"7\tx\0no\0", 2), Vec::<usize>::new());
    assert_eq!(chosen(&p, &vec![1]), vec![Which::Item(0)]);
}

#[test]
fn how_fzf_ends() {
    assert_eq!(fzf_end(Some(0)), Picked::Chosen);
    assert_eq!(fzf_end(Some(1)), Picked::Nothing);
    assert_eq!(fzf_end(Some(130)), Picked::Nothing);
    assert_eq!(fzf_end(Some(2)), Picked::Failed);
    assert_eq!(fzf_end(None), Picked::Failed);
    assert_eq!(before_pick(Deed::Restore, 0, true), Some("nothing to restore"));
    assert_eq!(before_pick(Deed::Purge, 0, true), Some("nothing to delete"));
    assert!(before_pick(Deed::Purge, 1, false).is_some());
    assert_eq!(before_pick(Deed::Purge, 1, true), None);
}

// ---- purge ----

#[test]
fn a_purge_names_twenty_entries() {
    let ts = vec![home()];
    let items: Vec<Item> = (0..25)
        .map(|i| item(b"n", format!("/home/u/f{i}").as_bytes(), "2026-01-01T00:00:00"))
        .collect();
    let c = with(items);
    let mut p: Vec<Which> = (0..25).map(Which::Item).collect();
    p.insert(0, Which::Orphan(0));
    let text = purge_listing(&ts, &c, b"/home/u", &p);
    let lines: Vec<&str> = text.lines().collect();
    assert_eq!(lines.len(), 21);
    assert_eq!(lines[0], "  .local/share/Trash/files/orph");
    assert_eq!(lines[1], "  f0");
    assert_eq!(lines[20], "  and 6 more");
    p.truncate(2);
    assert_eq!(purge_listing(&ts, &c, b"/home/u", &p).lines().count(), 2);
    assert_eq!(purge_question(1), "permanently delete 1 item?");
    assert_eq!(purge_question(26), "permanently delete 26 items?");
}

#[test]
fn a_purge_goes_by_trash_directory() {
    let mut c = two();
    c.items[0].trash = 1;
    let p = vec![Which::Item(0), Which::Orphan(0), Which::Item(1), Which::Item(0)];
    let p = picked_once(&p);
    assert_eq!(p, vec![Which::Item(0), Which::Orphan(0), Which::Item(1)]);
    assert_eq!(purge_group(&c, &p, 0), vec![Which::Orphan(0), Which::Item(1)]);
    assert_eq!(purge_group(&c, &p, 1), vec![Which::Item(0)]);
}

#[test]
fn an_item_that_stays_is_named() {
    assert_eq!(
        back_complaint(b"/home/u/a\tb", "no such file"),
        "cannot restore '/home/u/a\\tb': no such file"
    );
}

#[test]
fn many_items_are_listed_oldest_first() {
    let mut items = Vec::new();
    for k in 0..100u32 {
        // Each of the 50 dates comes twice.
        let n = (k * 37) % 50;
        let at = format!("/home/u/{k}");
        let date = format!("2026-01-01T00:00:{n:02}");
        items.push(item(at.as_bytes(), at.as_bytes(), &date));
    }
    let c = with(items);
    let seen = scope(&c, b"/", true);
    let mut want: Vec<(u32, usize)> = (0..100usize).map(|k| ((k as u32 * 37) % 50, k)).collect();
    want.sort();
    let want: Vec<Which> = want.into_iter().map(|(_, k)| Which::Item(k)).collect();
    let got: Vec<Which> = seen.iter().map(|d| d.which).collect();
    assert_eq!(got, want);
}

#[test]
fn undo_brings_the_last_put_back() {
    // Two paths of one put, and one from before.
    let c = with(vec![
        item(b"x", b"/home/u/x", "2026-02-02T00:00:00"),
        item(b"old", b"/home/u/old", "2026-02-01T23:59:59"),
        item(b"y", b"/home/u/d/y", "2026-02-02T00:00:00"),
    ]);
    let batch = undo(&c).unwrap();
    assert_eq!(batch, vec![0, 2]);
    let renamed = [
        BackFact::Done,
        BackFact::Absent,
        BackFact::Through,
        BackFact::Done,
        BackFact::Same,
        BackFact::Same,
        BackFact::Done,
        BackFact::Same,
        BackFact::Done,
    ];
    let copied = [
        BackFact::Done,
        BackFact::Absent,
        BackFact::Apart,
        BackFact::Size(1 << 40),
        BackFact::Done,
        BackFact::Same,
        BackFact::Done,
        BackFact::Same,
        BackFact::Done,
        BackFact::Done,
        BackFact::Done,
        BackFact::Done,
    ];
    let mut p = Progress::new();
    for (i, way) in batch.iter().zip([&renamed[..], &copied[..]]) {
        assert_eq!(p.skip(&c, *i), None);
        let end = outcome(go(args(false, true), way)).unwrap();
        assert_eq!(end, Outcome::Restored);
        p.note(*i, end);
    }
    assert!(p.ok && p.missing.is_empty());
}

#[test]
fn what_an_item_came_to() {
    assert_eq!(outcome(Back::Done(3)), Some(Outcome::Restored));
    assert_eq!(outcome(Back::Declined), Some(Outcome::Declined));
    assert_eq!(outcome(Back::Failed(BackErr::Leftover(0))), Some(Outcome::Failed));
    assert_eq!(outcome(Back::Rename(0)), None);
}
