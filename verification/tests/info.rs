//! Info files: paths, dates, names.
use rip::dates::DateTime;
use rip::info::{candidate, encode, encode_path, original, parse, parse_date, Kind, INFO_SUFFIX};

fn date(y: i16, mo: i8, d: i8, h: i8, mi: i8, s: i8) -> DateTime {
    DateTime {
        year: y,
        month: mo,
        day: d,
        hour: h,
        minute: mi,
        second: s,
        nano: 0,
    }
}

// --- encode / parse round trip -----------------------------------

#[test]
fn round_trips_every_byte_value() {
    let path_field: Vec<u8> = (0u8..=255).collect();
    let dt = date(2026, 9, 21, 10, 30, 5);
    let text = encode(&path_field, dt);
    let (decoded, parsed) = parse(&text).unwrap();
    assert_eq!(decoded, path_field);
    assert_eq!(parsed, dt);
}

#[test]
fn encode_escapes_space_as_percent_20_and_plus_as_percent_2b() {
    let text = encode(b" +", date(2026, 1, 1, 0, 0, 0));
    assert!(
        text.starts_with(b"[Trash Info]\nPath=%20%2B\n"),
        "{:?}",
        String::from_utf8_lossy(&text)
    );
}

#[test]
fn encode_leaves_unreserved_dash_dot_underscore_tilde_slash_literal() {
    let text = encode(b"-._~/AZaz09", date(2026, 1, 1, 0, 0, 0));
    assert!(
        text.starts_with(b"[Trash Info]\nPath=-._~/AZaz09\n"),
        "{:?}",
        String::from_utf8_lossy(&text)
    );
}

#[test]
fn decode_leaves_a_literal_plus_as_plus() {
    let (decoded, _) =
        parse(b"[Trash Info]\nPath=a+b\nDeletionDate=2026-01-01T00:00:00\n").unwrap();
    assert_eq!(decoded, b"a+b");
}

// --- parse edge cases ----------------------------------------------

#[test]
fn parse_valid() {
    let (decoded, dt) =
        parse(b"[Trash Info]\nPath=/home/user/a%20b\nDeletionDate=2026-09-21T10:30:00\n").unwrap();
    assert_eq!(decoded, b"/home/user/a b");
    assert_eq!(dt, date(2026, 9, 21, 10, 30, 0));
}

#[test]
fn parse_accepts_undashed_deletion_date() {
    let (_, dt) = parse(b"[Trash Info]\nPath=x\nDeletionDate=20260921T10:30:00\n").unwrap();
    assert_eq!(dt, date(2026, 9, 21, 10, 30, 0));
}

#[test]
fn parse_strips_crlf_line_endings() {
    let (decoded, dt) =
        parse(b"[Trash Info]\r\nPath=x\r\nDeletionDate=2026-09-21T10:30:00\r\n").unwrap();
    assert_eq!(decoded, b"x");
    assert_eq!(dt, date(2026, 9, 21, 10, 30, 0));
}

#[test]
fn parse_ignores_unknown_keys() {
    let (decoded, _) =
        parse(b"[Trash Info]\nFoo=bar\nPath=x\nDeletionDate=2026-09-21T10:30:00\nBaz=qux\n")
            .unwrap();
    assert_eq!(decoded, b"x");
}

#[test]
fn parse_first_path_and_date_win_on_duplicates() {
    let (decoded, dt) = parse(
        b"[Trash Info]\nPath=first\nPath=second\n\
          DeletionDate=2026-09-21T10:30:00\nDeletionDate=2027-01-01T00:00:00\n",
    )
    .unwrap();
    assert_eq!(decoded, b"first");
    assert_eq!(dt, date(2026, 9, 21, 10, 30, 0));
}

#[test]
fn parse_stops_at_the_next_group_header() {
    let err = parse(b"[Trash Info]\nPath=x\n[Another Group]\nDeletionDate=2026-09-21T10:30:00\n")
        .unwrap_err();
    assert_eq!(err, "no DeletionDate");
}

#[test]
fn parse_ignores_a_line_without_equals() {
    let (decoded, dt) = parse(
        b"[Trash Info]\nthis line has no equals sign\nPath=x\nDeletionDate=2026-09-21T10:30:00\n",
    )
    .unwrap();
    assert_eq!(decoded, b"x");
    assert_eq!(dt, date(2026, 9, 21, 10, 30, 0));
}

#[test]
fn parse_rejects_missing_header() {
    let err = parse(b"Path=x\nDeletionDate=2026-09-21T10:30:00\n").unwrap_err();
    assert_eq!(err, "first line is not [Trash Info]");
}

#[test]
fn parse_rejects_missing_path() {
    let err = parse(b"[Trash Info]\nDeletionDate=2026-09-21T10:30:00\n").unwrap_err();
    assert_eq!(err, "no Path");
}

#[test]
fn parse_rejects_missing_date() {
    let err = parse(b"[Trash Info]\nPath=x\n").unwrap_err();
    assert_eq!(err, "no DeletionDate");
}

#[test]
fn parse_rejects_bad_date() {
    let err = parse(b"[Trash Info]\nPath=x\nDeletionDate=not-a-date\n").unwrap_err();
    assert_eq!(err, "bad DeletionDate");
}

#[test]
fn dates_are_read_as_civil_ones() {
    assert_eq!(parse_date(b"2026-09-21T10:30:05"), Some(date(2026, 9, 21, 10, 30, 5)));
    assert_eq!(parse_date(b"2026-02-30T00:00:00"), None);
    assert_eq!(parse_date(b"0000-01-01T00:00:00"), Some(date(0, 1, 1, 0, 0, 0)));
    assert_eq!(parse_date(&[0xff]), None);
}

#[test]
fn percent_signs_that_encode_nothing_stay() {
    let (decoded, _) =
        parse(b"[Trash Info]\nPath=a%zz%4%41\nDeletionDate=2026-01-01T00:00:00\n").unwrap();
    assert_eq!(decoded, b"a%zz%4A");
    assert_eq!(encode_path(b"a%b\n"), b"a%25b%0A");
}

// --- original() ------------------------------------------------------

#[test]
fn original_home_relative_resolves_under_base() {
    let base = b"/home/user/.local/share/Trash";
    let got = original(Kind::Home, base, b"rel/a").unwrap();
    assert_eq!(got, b"/home/user/.local/share/Trash/rel/a");
}

#[test]
fn original_home_absolute_used_as_is_even_outside_base() {
    let base = b"/home/user/.local/share/Trash";
    let got = original(Kind::Home, base, b"/mnt/Mumei/a").unwrap();
    assert_eq!(got, b"/mnt/Mumei/a");
}

#[test]
fn original_topdir_relative_resolves_under_base() {
    let base = b"/mnt/Mumei";
    let got = original(Kind::User, base, b"a/b").unwrap();
    assert_eq!(got, b"/mnt/Mumei/a/b");
}

#[test]
fn original_topdir_absolute_inside_base_accepted() {
    let base = b"/mnt/Mumei";
    let got = original(Kind::Admin, base, b"/mnt/Mumei/a/b").unwrap();
    assert_eq!(got, b"/mnt/Mumei/a/b");
}

#[test]
fn original_topdir_absolute_outside_base_rejected() {
    let base = b"/mnt/Mumei";
    let err = original(Kind::User, base, b"/home/user/a").unwrap_err();
    assert_eq!(err, "Path is outside its topdir");
}

#[test]
fn original_topdir_equal_to_base_rejected() {
    let base = b"/mnt/Mumei";
    let err = original(Kind::User, base, b"/mnt/Mumei").unwrap_err();
    assert_eq!(err, "Path is outside its topdir");
}

#[test]
fn original_rejects_dotdot() {
    let base = b"/mnt/Mumei";
    assert_eq!(
        original(Kind::User, base, b"../etc/passwd").unwrap_err(),
        "'..' in Path"
    );
    assert_eq!(
        original(Kind::Home, base, b"/a/../b").unwrap_err(),
        "'..' in Path"
    );
}

#[test]
fn original_rejects_nul_byte() {
    let base = b"/mnt/Mumei";
    let err = original(Kind::Home, base, b"/a\0b").unwrap_err();
    assert_eq!(err, "empty Path or NUL byte");
}

#[test]
fn original_rejects_empty_path() {
    let base = b"/mnt/Mumei";
    let err = original(Kind::Home, base, b"").unwrap_err();
    assert_eq!(err, "empty Path or NUL byte");
}

// --- candidate() -------------------------------------------------

#[test]
fn candidate_no_suffix_when_k_is_zero() {
    let got = candidate(b"file.txt", 0, 10);
    assert_eq!(got, b"file.txt");
}

#[test]
fn candidate_appends_tilde_k_suffix() {
    let got = candidate(b"file.txt", 3, 10);
    assert_eq!(got, b"file.txt~3");
}

#[test]
fn candidate_cuts_a_255_byte_name_to_fit_with_trashinfo_reserve() {
    let name: String = "a".repeat(255);
    let got = candidate(name.as_bytes(), 0, INFO_SUFFIX.len());
    assert_eq!(got.len(), 255 - INFO_SUFFIX.len());
    assert_eq!(got, "a".repeat(255 - INFO_SUFFIX.len()).as_bytes());
}

#[test]
fn candidate_backs_off_to_a_utf8_char_boundary() {
    // The Euro sign is a 3-byte codepoint; a raw byte cut at the budget
    // would otherwise land inside one.
    let ch = '\u{20ac}';
    let name: String = std::iter::repeat_n(ch, 100).collect(); // 300 bytes
    let reserve = INFO_SUFFIX.len();
    let got = candidate(name.as_bytes(), 0, reserve);
    let want_bytes = 255 - reserve; // 245, not a multiple of 3
    assert!(got.len() < want_bytes);
    assert!(got.len() % ch.len_utf8() == 0);
    assert!(std::str::from_utf8(&got).is_ok());
}

#[test]
fn candidate_cuts_a_non_utf8_name_on_the_raw_byte_count() {
    // 0xFF is not valid UTF-8 anywhere, so the cut stays at the raw byte
    // budget with no boundary search.
    let name = [0xFFu8; 300];
    let got = candidate(&name, 0, INFO_SUFFIX.len());
    assert_eq!(got.len(), 255 - INFO_SUFFIX.len());
    assert_eq!(got, vec![0xFFu8; 255 - INFO_SUFFIX.len()]);
}

#[test]
fn numbered_candidates_of_a_long_name_differ() {
    let name: String = "a".repeat(255);
    let one = candidate(name.as_bytes(), 1, 10);
    let ten = candidate(name.as_bytes(), 10, 10);
    assert_eq!(one.len(), 245);
    assert_eq!(ten.len(), 245);
    assert_ne!(one, ten);
    assert!(ten.ends_with(b"a~10"));
}
