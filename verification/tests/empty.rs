//! What `rip empty` selects and says.
use std::collections::HashMap;

use rip::cli::Answer;
use rip::dates::DateTime;
use rip::delete::Report;
use rip::empty::{
    all_went, asks, candidates, dangling_in, deleted_notice, kept_notice, question, refusal, run,
    select_for_empty, Cand,
};
use rip::info::parse_date;
use rip::load::{Contents, Dangling, InfoRead, Item, Orphan, Which};
use rip::sys::{Dev, Ident};

fn when(date: &str) -> DateTime {
    parse_date(date.as_bytes()).unwrap()
}

fn cand(trash: usize, name: &str, date: &str) -> Cand {
    Cand {
        date: when(date),
        key: (trash, name.as_bytes().to_vec()),
        batchable: true,
    }
}

fn orphan_cand(trash: usize, name: &str, date: &str) -> Cand {
    Cand {
        batchable: false,
        ..cand(trash, name, date)
    }
}

fn names(c: &[Cand], idx: &[usize]) -> Vec<String> {
    idx.iter()
        .map(|&i| String::from_utf8(c[i].key.1.clone()).unwrap())
        .collect()
}

fn sizes(of: &[(&str, u64)]) -> HashMap<(usize, Vec<u8>), u64> {
    of.iter()
        .map(|(n, s)| ((0, n.as_bytes().to_vec()), *s))
        .collect()
}

#[test]
fn no_filter_deletes_all() {
    let mut c = vec![
        cand(0, "a", "2026-01-02T00:00:00"),
        cand(0, "b", "2026-01-01T00:00:00"),
    ];
    let got = select_for_empty(&mut c, None, None, |_: &Cand| 0).unwrap();
    assert_eq!(got, vec![0, 1]);
}

#[test]
fn older_than_boundary_equal_is_kept() {
    let mut c = vec![
        cand(0, "new", "2026-01-03T00:00:00"),
        cand(0, "boundary", "2026-01-02T00:00:00"),
        cand(0, "old", "2026-01-01T00:00:00"),
    ];
    let cutoff = when("2026-01-02T00:00:00");
    let got = select_for_empty(&mut c, Some(cutoff), None, |_: &Cand| 0).unwrap();
    assert_eq!(names(&c, &got), vec!["old"]);
}

#[test]
fn max_size_exact_fit_keeps_everything() {
    let mut c = vec![
        cand(0, "a", "2026-01-03T00:00:00"),
        cand(0, "b", "2026-01-02T00:00:00"),
        cand(0, "c", "2026-01-01T00:00:00"),
    ];
    let got = select_for_empty(&mut c, None, Some(30), |_: &Cand| 10).unwrap();
    assert!(got.is_empty(), "{}", names(&c, &got).join(","));
}

#[test]
fn max_size_first_overflow_deletes_every_older_item_even_a_smaller_one() {
    let mut c = vec![
        cand(0, "newest", "2026-01-03T00:00:00"),    // 20
        cand(0, "mid", "2026-01-02T00:00:00"),       // 10: total 30 > 25, overflows here
        cand(0, "old_small", "2026-01-01T00:00:00"), // 1: smaller, still doomed by cascade
    ];
    let sizes = sizes(&[("newest", 20), ("mid", 10), ("old_small", 1)]);
    let got = select_for_empty(&mut c, None, Some(25), |cd: &Cand| sizes[&cd.key]).unwrap();
    assert_eq!(names(&c, &got), vec!["mid", "old_small"]);
}

#[test]
fn max_size_newest_too_big_errors() {
    let mut c = vec![cand(0, "huge", "2026-01-01T00:00:00")];
    let err = select_for_empty(&mut c, None, Some(50), |_: &Cand| 100).unwrap_err();
    assert_eq!(err, (100, 50));
}

#[test]
fn union_of_both_filters() {
    // "a" is kept by both filters. "b" is old enough to be doomed by age
    // alone, but its size alone would fit under `max` (max only starts
    // dooming from "c" onward): the combined run must still catch "b".
    let mut c = vec![
        cand(0, "a", "2026-01-07T00:00:00"), // size 1
        cand(0, "b", "2026-01-03T00:00:00"), // size 1, older than the age cutoff
        cand(0, "c", "2026-01-02T00:00:00"), // size 100: overflows max here
        cand(0, "d", "2026-01-01T00:00:00"), // size 1, doomed by max's cascade too
    ];
    let sizes = sizes(&[("a", 1), ("b", 1), ("c", 100), ("d", 1)]);
    let cutoff = when("2026-01-04T00:00:00");
    let got = select_for_empty(&mut c, Some(cutoff), Some(50), |cd: &Cand| sizes[&cd.key]).unwrap();
    assert_eq!(names(&c, &got), vec!["b", "c", "d"]);
}

#[test]
fn tie_order_is_deterministic() {
    let mut c = vec![
        cand(1, "a", "2026-01-01T00:00:00"),
        cand(0, "b", "2026-01-01T00:00:00"),
        cand(0, "a", "2026-01-01T00:00:00"),
    ];
    let got = select_for_empty(&mut c, None, None, |_: &Cand| 0).unwrap();
    assert_eq!(got, vec![0, 1, 2]);
    let order: Vec<(usize, String)> = c
        .iter()
        .map(|cd| (cd.key.0, String::from_utf8(cd.key.1.clone()).unwrap()))
        .collect();
    assert_eq!(
        order,
        vec![
            (0, "a".to_string()),
            (0, "b".to_string()),
            (1, "a".to_string()),
        ]
    );
}

// ---- --max-size batching ----

#[test]
fn max_size_newest_batch_over_max_errors_whichever_name_sorts_first() {
    for small in ["a_notes", "z_notes"] {
        let mut c = vec![
            cand(0, "movie.mkv", "2026-09-01T12:00:00"), // size 8
            cand(0, small, "2026-09-01T12:00:00"),       // size 1
            cand(0, "older", "2026-08-01T12:00:00"),     // size 1
        ];
        let size = |cd: &Cand| if cd.key.1 == b"movie.mkv" { 8 } else { 1 };
        let err = select_for_empty(&mut c, None, Some(4), size).unwrap_err();
        assert_eq!(err, (9, 4), "small={small}");
    }
}

#[test]
fn max_size_does_not_split_an_older_batch_by_name() {
    for (first, second) in [("b_small", "c_big"), ("b_big", "c_small")] {
        let mut c = vec![
            cand(0, "newest", "2026-01-03T00:00:00"), // size 1, always kept
            cand(0, first, "2026-01-01T00:00:00"),
            cand(0, second, "2026-01-01T00:00:00"),
        ];
        let sizes = sizes(&[("newest", 1), (first, 1), (second, 3)]);
        // total if the whole older batch is kept too: 1+1+3 = 5 > 2.
        let got = select_for_empty(&mut c, None, Some(2), |cd: &Cand| sizes[&cd.key]).unwrap();
        let doomed = names(&c, &got);
        assert_eq!(
            doomed.len(),
            2,
            "batch split for ({first}, {second}): {doomed:?}"
        );
        assert!(doomed.contains(&first.to_string()) && doomed.contains(&second.to_string()));
    }
}

#[test]
fn max_size_orphan_with_same_date_as_an_item_does_not_join_its_batch() {
    let mut c = vec![
        cand(0, "item", "2026-01-01T00:00:00"),
        orphan_cand(0, "orphan", "2026-01-01T00:00:00"),
    ];
    let sizes = sizes(&[("item", 3), ("orphan", 100)]);
    // If they merged into one batch, the total (103) would be over max
    // (3) with start == 0, so this would error and delete nothing. As
    // separate batches, "item" alone (3) fits and "orphan" alone (100)
    // overflows on its own.
    let got = select_for_empty(&mut c, None, Some(3), |cd: &Cand| sizes[&cd.key]).unwrap();
    assert_eq!(names(&c, &got), vec!["orphan"]);
}

// ---- a whole run ----

fn ident(ino: u64) -> Ident {
    Ident {
        dev: Dev(1, 0),
        ino,
        mnt: 1,
    }
}

fn item(trash: usize, name: &str, date: &str) -> Item {
    Item {
        trash,
        name: name.as_bytes().to_vec(),
        original: b"/x".to_vec(),
        date: when(date),
        entry: ident(1),
        info: InfoRead {
            id: ident(2),
            bytes: vec![],
        },
    }
}

fn contents() -> Contents {
    Contents {
        items: vec![
            item(0, "a", "2026-01-03T00:00:00"),
            item(1, "b", "2026-01-02T00:00:00"),
            item(0, "c", "2026-01-01T00:00:00"),
        ],
        orphans: vec![Orphan {
            trash: 1,
            name: b"o".to_vec(),
            date: when("2025-12-01T00:00:00"),
            entry: ident(3),
            info: None,
        }],
        dangling: vec![
            Dangling {
                trash: 1,
                name: b"d".to_vec(),
                info: ident(4),
            },
            Dangling {
                trash: 0,
                name: b"e".to_vec(),
                info: ident(5),
            },
        ],
        warnings: vec![],
    }
}

#[test]
fn a_run_without_filters_takes_everything_oldest_first() {
    let c = contents();
    assert_eq!(candidates(&c).len(), 4);
    let plan = run(&c, 2, None, None, |_: &Cand| 0).unwrap();
    let at = |t: usize| -> Vec<Which> { plan.groups[t].iter().map(|d| d.which).collect() };
    assert_eq!(at(0), vec![Which::Item(2), Which::Item(0)]);
    assert_eq!(at(1), vec![Which::Orphan(0), Which::Item(1)]);
    assert_eq!((plan.items, plan.orphans, plan.dirs, plan.size), (3, 1, 2, None));
    assert_eq!(
        question(&plan),
        "permanently delete 3 items and 1 orphans from 2 trash directories?"
    );
    assert!(asks(&plan, false));
    assert!(!asks(&plan, true));
    assert_eq!(dangling_in(&c, 0), vec![1]);
    assert_eq!(dangling_in(&c, 1), vec![0]);
}

#[test]
fn a_run_names_a_size_it_knows() {
    let c = contents();
    // The newest two fit; the third goes over, and is measured with it; the
    // orphan is not.
    let plan = run(&c, 2, None, Some(2048), |_: &Cand| 1024).unwrap();
    assert_eq!((plan.items, plan.orphans), (1, 1));
    assert_eq!(plan.size, None);
    // Of one that goes alone the size is known.
    let mut one = contents();
    one.orphans.clear();
    let plan = run(&one, 2, None, Some(2048), |_: &Cand| 1024).unwrap();
    assert_eq!(plan.size, Some(1024));
    assert_eq!(
        question(&plan),
        "permanently delete 1 items and 0 orphans from 1 trash directories (1.0 KiB)?"
    );
}

#[test]
fn a_run_refuses_when_the_newest_is_too_large() {
    let err = match run(&contents(), 2, None, Some(1), |_: &Cand| 1024) {
        Err(e) => e,
        Ok(_) => panic!("the newest is too large"),
    };
    assert_eq!(
        err,
        "the newest batch alone is 1.0 KiB but --max-size is 1 B; nothing was deleted"
    );
}

#[test]
fn nothing_selected_asks_nothing() {
    let c = Contents {
        items: vec![],
        orphans: vec![],
        dangling: vec![],
        warnings: vec![],
    };
    let plan = run(&c, 1, None, None, |_: &Cand| 0).unwrap();
    assert!(!asks(&plan, false));
}

#[test]
fn words() {
    assert_eq!(deleted_notice(4), "deleted 4 items");
    assert_eq!(kept_notice(b"a\n", "busy"), "could not delete a\\n: busy");
    assert_eq!(
        refusal(Answer::NoTerminal, "x"),
        "refusing to delete without confirmation (use -y)"
    );
    assert_eq!(refusal(Answer::Failed, "x"), "x");
}

#[test]
fn an_orphan_does_not_split_a_batch() {
    let list = || {
        vec![
            cand(0, "a", "2026-01-01T00:00:00"),
            orphan_cand(0, "b", "2026-01-01T00:00:00"),
            cand(0, "c", "2026-01-01T00:00:00"),
        ]
    };
    let of = sizes(&[("a", 1), ("b", 1), ("c", 5)]);
    // The two items are the newest batch, and alone too large.
    let mut c = list();
    let err = select_for_empty(&mut c, None, Some(3), |x: &Cand| of[&x.key]).unwrap_err();
    assert_eq!(err, (6, 3));
    // They fit; the orphan between them does not fit beside them.
    let mut c = list();
    let got = select_for_empty(&mut c, None, Some(6), |x: &Cand| of[&x.key]).unwrap();
    assert_eq!(got, vec![1]);
    assert_eq!(names(&c, &got), vec!["b"]);
    // Below a newer batch both go, and with them what comes behind.
    let mut c = list();
    c.push(cand(1, "z", "2026-01-02T00:00:00"));
    let mut more = of.clone();
    more.insert((1, b"z".to_vec()), 1);
    let got = select_for_empty(&mut c, None, Some(4), |x: &Cand| more[&x.key]).unwrap();
    assert_eq!(names(&c, &got), vec!["a", "b", "c"]);
}

#[test]
fn an_orphan_with_the_first_key_comes_first() {
    let list = || {
        vec![
            cand(0, "b", "2026-01-01T00:00:00"),
            orphan_cand(0, "a", "2026-01-01T00:00:00"),
        ]
    };
    // The orphan fits, the item behind it does not.
    let of = sizes(&[("a", 1), ("b", 5)]);
    let mut c = list();
    let got = select_for_empty(&mut c, None, Some(3), |x: &Cand| of[&x.key]).unwrap();
    assert_eq!(names(&c, &[0, 1]), vec!["a", "b"]);
    assert_eq!(got, vec![1]);
    // The orphan is the newest batch, and alone too large.
    let of = sizes(&[("a", 100), ("b", 3)]);
    let mut c = list();
    let err = select_for_empty(&mut c, None, Some(3), |x: &Cand| of[&x.key]).unwrap_err();
    assert_eq!(err, (100, 3));
    // Between an orphan before and one after, the items are one batch.
    let of = sizes(&[("a", 1), ("b", 2), ("m", 9), ("z", 2)]);
    let mut c = list();
    c.push(orphan_cand(0, "m", "2026-01-01T00:00:00"));
    c.push(cand(0, "z", "2026-01-01T00:00:00"));
    let got = select_for_empty(&mut c, None, Some(5), |x: &Cand| of[&x.key]).unwrap();
    assert_eq!(names(&c, &[0, 1, 2, 3]), vec!["a", "b", "m", "z"]);
    assert_eq!(names(&c, &got), vec!["m"]);
}

#[test]
fn sizes_are_asked_no_further_than_the_limit_needs() {
    let mut c = vec![
        cand(0, "a", "2026-01-03T00:00:00"),
        cand(0, "b", "2026-01-02T00:00:00"),
        orphan_cand(0, "c", "2026-01-02T00:00:00"),
        cand(0, "d", "2026-01-02T00:00:00"),
        cand(0, "e", "2026-01-01T00:00:00"),
    ];
    // Without a limit nothing is asked.
    let never = |_: &Cand| -> u64 { panic!("asked for a size") };
    let cutoff = when("2026-01-02T00:00:00");
    let got = select_for_empty(&mut c, Some(cutoff), None, never).unwrap();
    assert_eq!(names(&c, &got), vec!["e"]);
    // The batch of b and d goes over: the orphan between and what is older are
    // not asked.
    let asked = std::cell::RefCell::new(Vec::new());
    let size = |x: &Cand| {
        asked.borrow_mut().push(x.key.1[0] as char);
        2
    };
    let got = select_for_empty(&mut c, None, Some(5), size).unwrap();
    assert_eq!(names(&c, &got), vec!["b", "c", "d", "e"]);
    assert_eq!(*asked.borrow(), vec!['a', 'b', 'd']);
}

#[test]
fn a_run_went_well_where_nothing_was_kept() {
    assert!(all_went(&vec![]));
    let mut reports = vec![Report::new(), Report::new()];
    reports[0].deleted = 3;
    assert!(all_went(&reports));
    reports[1].keep(b"x".to_vec(), "busy".to_string());
    assert!(!all_went(&reports));
}
