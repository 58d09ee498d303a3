//! Bytes, paths, dates, sorting and the table.
use rip::bytes::{append, find, is_before, same, split, strip_prefix, strip_suffix, trim_end};
use rip::dates::{write_dashed, write_spaced, DateTime};
use rip::load::{Dated, Which};
use rip::paths::{
    beyond, clean, components, continue_with, is_absolute, join, render, same_path, starts_with,
};
use rip::sort::sort;
use rip::table::Table;
use rip::tree::{Frame, Spot, Tree, Turn};

#[test]
fn pieces() {
    assert_eq!(split(b"a/b//", b'/'), vec![&b"a"[..], b"b", b"", b""]);
    assert_eq!(split(b"", b'/'), vec![b""]);
    assert_eq!(strip_prefix(b"abc", b"ab"), Some(b"c".to_vec()));
    assert_eq!(strip_prefix(b"abc", b"b"), None);
    assert_eq!(strip_suffix(b"abc", b"bc"), Some(b"a".to_vec()));
    assert_eq!(strip_suffix(b"c", b"bc"), None);
    assert_eq!(trim_end(b"a \t\r\n"), b"a");
    assert_eq!(find(b"abab", b'b'), Some(1));
    assert_eq!(find(b"abab", b'x'), None);
    assert!(same(b"ab", b"ab") && !same(b"ab", b"a"));
    assert!(is_before(b"a", b"ab") && is_before(b"a", b"b") && !is_before(b"b", b"ab"));
    let mut v = b"a".to_vec();
    append(&mut v, b"bc");
    assert_eq!(v, b"abc");
}

#[test]
fn paths_by_component() {
    for p in ["/a//b/./c/", "a/b", "./a", "/", "", ".", "..", "/..", "a/../b", "a/.", "./.", "///x"] {
        let ours: Vec<Vec<u8>> = components(p.as_bytes());
        let theirs: Vec<Vec<u8>> = std::path::Path::new(p)
            .components()
            .map(|c| c.as_os_str().as_encoded_bytes().to_vec())
            .collect();
        assert_eq!(ours, theirs, "{p}");
    }
    assert_eq!(clean(b"/a//b/./c/"), b"/a/b/c");
    assert_eq!(clean(b"/"), b"/");
    assert!(starts_with(b"/a/b", b"/a") && !starts_with(b"/ab", b"/a"));
    assert!(same_path(b"/a/b/", b"/a//b") && !same_path(b"a", b"/a"));
    assert_eq!(join(b"/a", b"b"), b"/a/b");
    assert_eq!(join(b"/a/", b"b"), b"/a/b");
    assert_eq!(join(b"/a", b"/b"), b"/b");
    assert!(is_absolute(b"/") && !is_absolute(b""));
    assert_eq!(beyond(b"/a/b/c", b"/a"), Some(vec![b"b".to_vec(), b"c".to_vec()]));
    assert_eq!(beyond(b"/a", b"/b"), None);
    let c = continue_with(components(b"/a"), components(b"b/c"));
    assert_eq!(render(&c), b"/a/b/c");
}

fn day(d: i8) -> DateTime {
    DateTime {
        year: 2026,
        month: 1,
        day: d,
        hour: 1,
        minute: 2,
        second: 3,
        nano: 4,
    }
}

#[test]
fn dates_written_out() {
    assert_eq!(write_dashed(&day(9)), "2026-01-09T01:02:03");
    assert_eq!(write_spaced(&day(9)), "2026-01-09 01:02:03");
    let mut early = day(9);
    early.year = 7;
    assert_eq!(write_dashed(&early), "0007-01-09T01:02:03");
    early.year = -7;
    assert_eq!(write_dashed(&early), "-007-01-09T01:02:03");
    early.year = -1234;
    assert_eq!(write_dashed(&early), "-1234-01-09T01:02:03");
    assert!(day(1).is_before(&day(2)) && !day(2).is_before(&day(2)));
}

#[test]
fn sorting_is_stable() {
    let d = |n: i8, i: usize| Dated {
        date: day(n),
        which: Which::Item(i),
    };
    let mut v = vec![d(3, 0), d(1, 1), d(3, 2), d(2, 3), d(1, 4)];
    sort(&mut v);
    let order: Vec<Which> = v.iter().map(|x| x.which).collect();
    assert_eq!(order, [1, 4, 3, 0, 2].map(Which::Item).to_vec());
}

#[test]
fn a_table_keeps_one_value_for_a_key() {
    let mut t: Table<Vec<u8>, bool> = Table::new();
    for i in 0..300u32 {
        t.insert(i.to_string().into_bytes(), i % 2 == 0);
    }
    t.insert(b"7".to_vec(), true);
    assert_eq!(t.len(), 300);
    assert_eq!(t.get(&b"7".to_vec()), Some(true));
    assert_eq!(t.get(&b"9".to_vec()), Some(false));
    assert_eq!(t.get(&b"300".to_vec()), None);
}

#[test]
fn a_tree_comes_to_its_end() {
    let spot = Spot {
        sticky: false,
        owner: 0,
    };
    let mut t = Tree::new();
    t.enter(Frame {
        name: b"d".to_vec(),
        key: vec![],
        rel: b"d".to_vec(),
        spot,
        todo: vec![b"a".to_vec(), b"b".to_vec()],
    });
    assert!(matches!(t.next(), Turn::Visit { name, key, rel, .. }
        if name == b"b" && key == b"b" && rel == b"d/b"));
    assert!(matches!(t.next(), Turn::Visit { name, .. } if name == b"a"));
    assert!(matches!(t.next(), Turn::Leave { name, .. } if name == b"d"));
    assert!(matches!(t.next(), Turn::Done));
}
