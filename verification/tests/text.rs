//! Text for people.
use rip::text::{escape, human, number, trim};

#[test]
fn human_sizes() {
    assert_eq!(human(0), "0 B");
    assert_eq!(human(1536), "1.5 KiB");
    assert_eq!(human(500 << 20), "500.0 MiB");
}

#[test]
fn escape_bytes() {
    assert_eq!(escape(b"plain"), "plain");
    assert_eq!(escape(b"a\\b"), "a\\\\b");
    assert_eq!(escape(b"a\nb\tc"), "a\\nb\\tc");
    assert_eq!(escape(&[0x41, 0x01, 0x42]), "A\\x01B");
    assert_eq!(escape(&[0xff, 0x41]), "\\xffA");
}

#[test]
fn escape_c1_controls_and_wide_characters() {
    assert_eq!(escape("a\u{9b}b".as_bytes()), "a\\x9bb");
    assert_eq!(escape("\u{7f}".as_bytes()), "\\x7f");
    assert_eq!(escape("naïve €".as_bytes()), "naïve €");
    // A character cut short is invalid.
    assert_eq!(escape(&[0xe2, 0x82]), "\\xe2\\x82");
    assert_eq!(escape(b""), "");
}

#[test]
fn human_sizes_round_as_floating_point_does() {
    let units = ["B", "KiB", "MiB", "GiB", "TiB", "PiB"];
    let by_float = |n: u64| -> String {
        if n < 1024 {
            return format!("{n} B");
        }
        let mut size = n as f64;
        let mut unit = 0;
        while size >= 1024.0 && unit < units.len() - 1 {
            size /= 1024.0;
            unit += 1;
        }
        format!("{size:.1} {}", units[unit])
    };
    let mut n: u64 = 1;
    for i in 0..4000u64 {
        n = n
            .wrapping_mul(6364136223846793005)
            .wrapping_add(1442695040888963407);
        let x = n >> (i % 64);
        assert_eq!(human(x), by_float(x), "{x}");
    }
    for x in [1023, 1024, 1075, 1076, 1126, 1177, u64::MAX, u64::MAX - 1, 1 << 53, (1 << 53) + 1] {
        assert_eq!(human(x), by_float(x), "{x}");
    }
    for k in 1..64 {
        let p = 1u64 << k;
        for x in [p - 1, p, p + 1, p + p / 20, p + p / 10] {
            assert_eq!(human(x), by_float(x), "{x}");
        }
    }
}

#[test]
fn numbers_and_white_space() {
    assert_eq!(number(0), "0");
    assert_eq!(number(u64::MAX), u64::MAX.to_string());
    assert_eq!(trim(" \t\u{2003}x y\u{85}\n"), "x y");
    assert_eq!(trim(""), "");
}

#[test]
fn escaped_names_stay_apart() {
    let names: [&[u8]; 9] = [
        b"a\nb",
        b"a\\nb",
        b"a\\\nb",
        b"\x01",
        b"\\x01",
        b"\xff",
        b"\\xff",
        b"\xc3\xbf",
        b"\\",
    ];
    for (i, a) in names.iter().enumerate() {
        for (j, b) in names.iter().enumerate() {
            assert_eq!(escape(a) == escape(b), i == j, "{i} {j}");
        }
    }
    // Of C1 the character and the stray byte look alike.
    assert_eq!(escape("\u{9b}".as_bytes()), escape(&[0x9b]));
}
