//! `.trashinfo` files: writing and reading them, the path they name, and names
//! that do not collide.
use percent_encoding::{percent_decode, percent_encode, NON_ALPHANUMERIC};
use vstd::prelude::*;
use vstd::slice::slice_subrange;
use vstd::string::*;
use vstd::utf8::*;

use crate::bytes::{
    append, copy, has_prefix, join_with, lit, of, same, split, split_on, split_then_join,
    strip_prefix, trim_end, trimmed_end, views,
};
use crate::dates::{
    civil_reading, dashed, read_by_format, read_civil, strptime_reading, two, write_dashed,
    year_text, DateTime,
};
use crate::paths::{
    absolute, begins_with, components, comps, comps_are_well_formed, comps_of_joined, is_absolute,
    join, join_then_split, joined, names_in, parent_comp, render, rendered, rendered_keeps_comps,
    under, SLASH,
};
use crate::text::{
    decimal, decimal_is_digits, decimal_is_injective, from_utf8, number, trim, trimmed, trimmed_left,
};

verus! {

/// Where a trash directory stands.
#[derive(Clone, Copy, PartialEq, Eq, Debug, Structural)]
pub enum Kind {
    Home,
    /// `$topdir/.Trash/$uid`
    Admin,
    /// `$topdir/.Trash-$uid`
    User,
}

/// What an info file's name ends in.
pub const INFO_SUFFIX: &'static str = ".trashinfo";

// ---------------------------------------------------------------------------
// Percent encoding
// ---------------------------------------------------------------------------

/// An ASCII letter or digit.
pub open spec fn alphanumeric(b: u8) -> bool {
    0x30 <= b <= 0x39 || 0x41 <= b <= 0x5a || 0x61 <= b <= 0x7a
}

/// `-`, `.`, `_`, `~` and `/`: bytes that a `Path=` keeps besides letters and
/// digits.
pub open spec fn kept_mark(b: u8) -> bool {
    b == 0x2d || b == 0x2e || b == 0x5f || b == 0x7e || b == 0x2f
}

/// The byte that writes `0 <= n < 16` in hexadecimal, in upper case.
pub open spec fn upper_hex(n: int) -> u8 {
    if n < 10 {
        (0x30 + n) as u8
    } else {
        (0x37 + n) as u8
    }
}

/// `%XX`.
pub open spec fn percent(b: u8) -> Seq<u8> {
    seq![0x25u8, upper_hex(b as int / 16), upper_hex(b as int % 16)]
}

/// Letters and digits as they are, every other byte as `%XX`.
pub open spec fn fully_encoded(s: Seq<u8>) -> Seq<u8>
    decreases s.len(),
{
    if s.len() == 0 {
        Seq::empty()
    } else {
        fully_encoded(s.drop_last()) + (if alphanumeric(s.last()) {
            seq![s.last()]
        } else {
            percent(s.last())
        })
    }
}

/// How a `Path=` value writes one byte.
pub open spec fn encoded_byte(b: u8) -> Seq<u8> {
    if alphanumeric(b) || kept_mark(b) {
        seq![b]
    } else {
        percent(b)
    }
}

/// A `Path=` value.
pub open spec fn encoded(s: Seq<u8>) -> Seq<u8>
    decreases s.len(),
{
    if s.len() == 0 {
        Seq::empty()
    } else {
        encoded(s.drop_last()) + encoded_byte(s.last())
    }
}

/// The value of a hexadecimal digit, in either case.
pub open spec fn hex_value(b: u8) -> Option<int> {
    if 0x30 <= b <= 0x39 {
        Some(b - 0x30)
    } else if 0x41 <= b <= 0x46 {
        Some(b - 0x37)
    } else if 0x61 <= b <= 0x66 {
        Some(b - 0x57)
    } else {
        None
    }
}

/// `%XX` read back as a byte; everything else, a `%` without two digits
/// included, stands for itself.
pub open spec fn decoded(s: Seq<u8>) -> Seq<u8>
    decreases s.len(),
{
    if s.len() == 0 {
        Seq::empty()
    } else if s[0] == 0x25 && s.len() >= 3 && hex_value(s[1]) is Some && hex_value(s[2]) is Some {
        seq![(16 * hex_value(s[1])->0 + hex_value(s[2])->0) as u8] + decoded(s.skip(3))
    } else {
        seq![s[0]] + decoded(s.skip(1))
    }
}

/// `percent_encoding::percent_encode` with `NON_ALPHANUMERIC`: ASCII letters
/// and digits stay, every other byte becomes `%` and two upper-case digits.
#[verifier::external_body]
fn encode_fully(s: &[u8]) -> (r: Vec<u8>)
    ensures
        r@ == fully_encoded(s@),
{
    percent_encode(s, NON_ALPHANUMERIC).to_string().into_bytes()
}

/// `percent_encoding::percent_decode`: `%` with two hexadecimal digits of
/// either case becomes the byte they name, everything else stays.
#[verifier::external_body]
fn decode(s: &[u8]) -> (r: Vec<u8>)
    ensures
        r@ == decoded(s@),
{
    percent_decode(s).collect()
}

/// Writes a path as a `Path=` value.
pub fn encode_path(s: &[u8]) -> (r: Vec<u8>)
    ensures
        r@ == encoded(s@),
{
    let mut r: Vec<u8> = Vec::new();
    let mut i: usize = 0;
    while i < s.len()
        invariant
            i <= s.len(),
            r@ =~= encoded(s@.take(i as int)),
        decreases s.len() - i,
    {
        let b: u8 = s[i];
        assert(s@.take(i + 1).drop_last() =~= s@.take(i as int));
        if b == 0x2d || b == 0x2e || b == 0x5f || b == 0x7e || b == 0x2f {
            r.push(b);
        } else {
            let one = slice_subrange(s, i, i + 1);
            assert(one@ =~= seq![b]);
            assert(one@.drop_last() =~= Seq::<u8>::empty());
            let e = encode_fully(one);
            assert(e@ =~= encoded_byte(b)) by {
                reveal_with_fuel(fully_encoded, 2);
            }
            append(&mut r, e.as_slice());
        }
        i = i + 1;
    }
    assert(s@.take(s@.len() as int) =~= s@);
    r
}

/// A byte at the front of an encoded text is decoded on its own.
proof fn decode_front(b: u8, rest: Seq<u8>)
    ensures
        decoded(encoded_byte(b) + rest) == seq![b] + decoded(rest),
{
    let e = encoded_byte(b);
    let s = e + rest;
    if alphanumeric(b) || kept_mark(b) {
        assert(s[0] == b && b != 0x25);
        assert(s.skip(1) =~= rest);
    } else {
        let hi = b as int / 16;
        let lo = b as int % 16;
        assert(s[0] == 0x25 && s[1] == upper_hex(hi) && s[2] == upper_hex(lo));
        assert(hex_value(upper_hex(hi)) == Some(hi));
        assert(hex_value(upper_hex(lo)) == Some(lo));
        assert(s.skip(3) =~= rest);
        assert(16 * hi + lo == b);
    }
}

proof fn encoded_front(s: Seq<u8>)
    requires
        s.len() > 0,
    ensures
        encoded(s) == encoded_byte(s[0]) + encoded(s.skip(1)),
    decreases s.len(),
{
    if s.len() == 1 {
        assert(s.drop_last() =~= Seq::<u8>::empty());
        assert(s.skip(1) =~= Seq::<u8>::empty());
        reveal_with_fuel(encoded, 2);
        assert(encoded(s) =~= encoded_byte(s[0]) + encoded(s.skip(1)));
    } else {
        encoded_front(s.drop_last());
        assert(s.drop_last().skip(1) =~= s.skip(1).drop_last());
        assert(encoded(s) =~= encoded_byte(s[0]) + encoded(s.skip(1)));
    }
}

/// Every path comes back from its `Path=` value byte for byte.
pub proof fn decode_undoes_encode(s: Seq<u8>)
    ensures
        decoded(encoded(s)) == s,
    decreases s.len(),
{
    if s.len() > 0 {
        encoded_front(s);
        decode_undoes_encode(s.skip(1));
        decode_front(s[0], encoded(s.skip(1)));
        assert(seq![s[0]] + s.skip(1) =~= s);
    }
}

/// A `Path=` value is plain: letters, digits, the five marks and `%`.
pub proof fn encoded_is_plain(s: Seq<u8>)
    ensures
        forall|i: int|
            0 <= i < encoded(s).len() ==> (alphanumeric(#[trigger] encoded(s)[i]) || kept_mark(
                encoded(s)[i],
            ) || encoded(s)[i] == 0x25),
    decreases s.len(),
{
    if s.len() > 0 {
        let front = encoded(s.drop_last());
        let last = encoded_byte(s.last());
        encoded_is_plain(s.drop_last());
        let hi = s.last() as int / 16;
        let lo = s.last() as int % 16;
        assert(alphanumeric(upper_hex(hi)) && alphanumeric(upper_hex(lo)));
        assert forall|i: int| 0 <= i < encoded(s).len() implies (alphanumeric(
            #[trigger] encoded(s)[i],
        ) || kept_mark(encoded(s)[i]) || encoded(s)[i] == 0x25) by {
            if i < front.len() {
                assert(encoded(s)[i] == front[i]);
            } else {
                assert(encoded(s)[i] == last[i - front.len()]);
            }
        }
    }
}

/// A path is encoded byte by byte: letters, digits, `-`, `.`, `_`, `~` and `/` stay,
/// every other byte is `%` and its number in two hexadecimal digits, in upper case.
pub proof fn each_byte_is_encoded(s: Seq<u8>, b: u8)
    ensures
        ({
            let c = b as char;
            let digits = seq![
                '0', '1', '2', '3', '4', '5', '6', '7', '8', '9', 'A', 'B', 'C', 'D', 'E', 'F',
            ];
            encoded(s.push(b)) == encoded(s) + (if ('0' <= c <= '9') || ('A' <= c <= 'Z') || ('a'
                <= c <= 'z') || c == '-' || c == '.' || c == '_' || c == '~' || c == '/' {
                seq![b]
            } else {
                seq!['%' as u8, digits[b as int / 16] as u8, digits[b as int % 16] as u8]
            })
        }),
        encoded(Seq::<u8>::empty()) == Seq::<u8>::empty(),
{
    let digits = seq![
        '0', '1', '2', '3', '4', '5', '6', '7', '8', '9', 'A', 'B', 'C', 'D', 'E', 'F',
    ];
    assert(s.push(b).drop_last() =~= s);
    let hi = b as int / 16;
    let lo = b as int % 16;
    assert(upper_hex(hi) == digits[hi] as u8);
    assert(upper_hex(lo) == digits[lo] as u8);
}

// ---------------------------------------------------------------------------
// Writing
// ---------------------------------------------------------------------------

/// The lines of an info file.
pub open spec fn info_lines(path: Seq<u8>, date: DateTime) -> Seq<Seq<u8>> {
    seq![
        lit("[Trash Info]"),
        lit("Path=") + encoded(path),
        lit("DeletionDate=") + encode_utf8(dashed(date)),
        Seq::<u8>::empty(),
    ]
}

/// The contents of an info file.
pub open spec fn info_text(path: Seq<u8>, date: DateTime) -> Seq<u8> {
    join_with(info_lines(path, date), 0x0a)
}

/// Builds the contents of an info file, the date to the second.
pub fn encode(path_field: &[u8], date: DateTime) -> (text: Vec<u8>)
    requires
        date.valid(),
    ensures
        text@ == info_text(path_field@, date),
{
    let mut text = of("[Trash Info]");
    text.push(0x0a);
    let head = of("Path=");
    append(&mut text, head.as_slice());
    let p = encode_path(path_field);
    append(&mut text, p.as_slice());
    text.push(0x0a);
    let head = of("DeletionDate=");
    append(&mut text, head.as_slice());
    let d = write_dashed(&date);
    append(&mut text, d.as_str().as_bytes());
    text.push(0x0a);
    proof {
        let lines = info_lines(path_field@, date);
        let l3 = lines.drop_last();
        let l2 = l3.drop_last();
        let l1 = l2.drop_last();
        assert(l1 =~= seq![lit("[Trash Info]")]);
        assert(l2.last() == lines[1]);
        assert(l3.last() == lines[2]);
        reveal_with_fuel(join_with, 4);
        assert(join_with(l1, 0x0a) == lines[0]);
        assert(join_with(l2, 0x0a) == lines[0].push(0x0a) + lines[1]);
        assert(join_with(l3, 0x0a) == join_with(l2, 0x0a).push(0x0a) + lines[2]);
        assert(join_with(lines, 0x0a) == join_with(l3, 0x0a).push(0x0a) + lines[3]);
        assert(text@ =~= info_text(path_field@, date));
    }
    text
}

/// An info file is its header, the encoded path and the date, a line each.
pub proof fn an_info_file_has_three_lines(path: Seq<u8>, date: DateTime)
    requires
        date.valid(),
        date.year >= 0,
    ensures
        split_on(info_text(path, date), 0x0a) == seq![
            lit("[Trash Info]"),
            lit("Path=") + encoded(path),
            lit("DeletionDate=") + encode_utf8(dashed(date)),
            Seq::<u8>::empty(),
        ],
{
    let lines = info_lines(path, date);
    info_lines_hold_no_newline(path, date);
    join_then_split(lines, 0x0a);
}

// ---------------------------------------------------------------------------
// Reading
// ---------------------------------------------------------------------------

/// The lines of a text, each without the white space at its end.
pub open spec fn lines_of(text: Seq<u8>) -> Seq<Seq<u8>> {
    let raw = split_on(text, 0x0a);
    Seq::new(raw.len(), |i: int| trimmed_end(raw[i]))
}

/// What follows `key` in the first line that begins with it, before the next
/// group header.
pub open spec fn first_value(lines: Seq<Seq<u8>>, key: Seq<u8>) -> Option<Seq<u8>>
    decreases lines.len(),
{
    if lines.len() == 0 || has_prefix(lines[0], lit("[")) {
        None
    } else if has_prefix(lines[0], key) {
        Some(lines[0].skip(key.len() as int))
    } else {
        first_value(lines.skip(1), key)
    }
}

/// The date in a `DeletionDate=` value: `YYYY-MM-DDThh:mm:ss` as `jiff` reads
/// it, or else `YYYYMMDDThh:mm:ss`.
pub open spec fn date_in(v: Seq<u8>) -> Option<DateTime> {
    if !valid_utf8(v) {
        None
    } else {
        let s = trimmed(decode_utf8(v));
        match civil_reading(s) {
            Some(d) => Some(d),
            None => strptime_reading("%Y%m%dT%H:%M:%S"@, s),
        }
    }
}

/// What an info file says, or what is wrong with it.
pub open spec fn parsed(text: Seq<u8>) -> Result<(Seq<u8>, DateTime), Seq<char>> {
    let lines = lines_of(text);
    if lines[0] != lit("[Trash Info]") {
        Err("first line is not [Trash Info]"@)
    } else {
        let body = lines.skip(1);
        match first_value(body, lit("DeletionDate=")) {
            None => Err("no DeletionDate"@),
            Some(v) => match date_in(v) {
                None => Err("bad DeletionDate"@),
                Some(date) => match first_value(body, lit("Path=")) {
                    None => Err("no Path"@),
                    Some(p) => Ok((decoded(p), date)),
                },
            },
        }
    }
}

/// Finds the value of a key in the lines after the header.
fn find_value(lines: &Vec<Vec<u8>>, key: &str) -> (r: Option<Vec<u8>>)
    requires
        lines@.len() >= 1,
    ensures
        match r {
            Some(v) => first_value(views(lines@).skip(1), lit(key)) == Some(v@),
            None => first_value(views(lines@).skip(1), lit(key)) is None,
        },
{
    let key_bytes = of(key);
    let open = of("[");
    let ghost body = views(lines@).skip(1);
    let mut i: usize = 1;
    assert(body.skip(0) =~= body);
    while i < lines.len()
        invariant
            1 <= i <= lines.len(),
            key_bytes@ == lit(key),
            open@ == lit("["),
            body == views(lines@).skip(1),
            first_value(body, lit(key)) == first_value(body.skip(i - 1), lit(key)),
        decreases lines.len() - i,
    {
        let l = lines[i].as_slice();
        assert(body.skip(i - 1)[0] == l@);
        assert(body.skip(i - 1).skip(1) =~= body.skip(i as int));
        if strip_prefix(l, open.as_slice()).is_some() {
            return None;
        }
        if let Some(v) = strip_prefix(l, key_bytes.as_slice()) {
            return Some(v);
        }
        i = i + 1;
    }
    None
}

/// A key has the value behind it in the first line that begins with it, and only
/// lines before the next group header count.
pub proof fn the_first_line_of_a_key_counts(lines: Seq<Seq<u8>>, key: Seq<u8>)
    ensures
        match first_value(lines, key) {
            Some(v) => exists|k: int|
                0 <= k < lines.len() && #[trigger] lines[k] == key + v && (forall|j: int|
                    0 <= j <= k ==> !has_prefix(#[trigger] lines[j], lit("["))) && (forall|j: int|
                    0 <= j < k ==> !has_prefix(#[trigger] lines[j], key)),
            None => forall|k: int|
                0 <= k < lines.len() && has_prefix(#[trigger] lines[k], key) ==> exists|j: int|
                    0 <= j <= k && has_prefix(#[trigger] lines[j], lit("[")),
        },
    decreases lines.len(),
{
    if lines.len() > 0 && !has_prefix(lines[0], lit("[")) {
        let rest = lines.skip(1);
        if has_prefix(lines[0], key) {
            assert(lines[0] =~= key + lines[0].skip(key.len() as int));
        } else {
            the_first_line_of_a_key_counts(rest, key);
            match first_value(rest, key) {
                Some(v) => {
                    let k = choose|k: int|
                        0 <= k < rest.len() && #[trigger] rest[k] == key + v && (forall|j: int|
                            0 <= j <= k ==> !has_prefix(#[trigger] rest[j], lit("["))) && (forall|
                            j: int,
                        |
                            0 <= j < k ==> !has_prefix(#[trigger] rest[j], key));
                    assert(lines[k + 1] == key + v);
                    assert forall|j: int| 0 <= j <= k + 1 implies !has_prefix(
                        #[trigger] lines[j],
                        lit("["),
                    ) by {
                        if j > 0 {
                            assert(rest[j - 1] == lines[j]);
                        }
                    }
                    assert forall|j: int| 0 <= j < k + 1 implies !has_prefix(
                        #[trigger] lines[j],
                        key,
                    ) by {
                        if j > 0 {
                            assert(rest[j - 1] == lines[j]);
                        }
                    }
                },
                None => {
                    assert forall|k: int|
                        0 <= k < lines.len() && has_prefix(#[trigger] lines[k], key) implies exists|
                        j: int,
                    |
                        0 <= j <= k && has_prefix(#[trigger] lines[j], lit("[")) by {
                        assert(rest[k - 1] == lines[k]);
                        let j = choose|j: int|
                            0 <= j <= k - 1 && has_prefix(#[trigger] rest[j], lit("["));
                        assert(lines[j + 1] == rest[j]);
                    }
                },
            }
        }
    } else if lines.len() > 0 {
        assert(has_prefix(lines[0], lit("[")));
    }
}

/// An info file is read just where it begins with its header and has, in its
/// group, a date that can be read and a path; it then says that date and the path
/// with its escapes undone. White space at the end of a line does not count, nor
/// the order of the two.
pub proof fn an_info_file_says_path_and_date(text: Seq<u8>)
    ensures
        ({
            let raw = split_on(text, 0x0a);
            let lines = Seq::new(raw.len(), |i: int| trimmed_end(raw[i]));
            let body = lines.skip(1);
            let date = first_value(body, lit("DeletionDate="));
            let path = first_value(body, lit("Path="));
            let r = parsed(text);
            &&& r is Ok <==> lines[0] == lit("[Trash Info]") && date is Some && date_in(date->0)
                is Some && path is Some
            &&& r matches Ok(got) ==> got.0 == decoded(path->0) && date_in(date->0) == Some(got.1)
            &&& lines[0] != lit("[Trash Info]") ==> r == Err::<(Seq<u8>, DateTime), Seq<char>>(
                "first line is not [Trash Info]"@,
            )
            &&& lines[0] == lit("[Trash Info]") && date is None ==> r == Err::<
                (Seq<u8>, DateTime),
                Seq<char>,
            >("no DeletionDate"@)
            &&& lines[0] == lit("[Trash Info]") && date is Some && date_in(date->0) is None ==> r
                == Err::<(Seq<u8>, DateTime), Seq<char>>("bad DeletionDate"@)
            &&& lines[0] == lit("[Trash Info]") && date is Some && date_in(date->0) is Some && path
                is None ==> r == Err::<(Seq<u8>, DateTime), Seq<char>>("no Path"@)
        }),
{
    let raw = split_on(text, 0x0a);
    assert(Seq::new(raw.len(), |i: int| trimmed_end(raw[i])) =~= lines_of(text));
}

/// A date is read in either form: with dashes, and where that fails without.
pub proof fn a_date_is_read_in_either_form(s: Seq<char>)
    requires
        trimmed(s) == s,
    ensures
        civil_reading(s) is Some ==> date_in(encode_utf8(s)) == civil_reading(s),
        civil_reading(s) is None ==> date_in(encode_utf8(s)) == strptime_reading(
            "%Y%m%dT%H:%M:%S"@,
            s,
        ),
        forall|v: Seq<u8>| !valid_utf8(v) ==> #[trigger] date_in(v) is None,
{
    encode_utf8_valid_utf8(s);
    encode_utf8_decode_utf8(s);
}

/// Reads a `DeletionDate=` value. A text that `dashed` wrote reads as the date
/// it was written for.
pub fn parse_date(v: &[u8]) -> (r: Option<DateTime>)
    ensures
        r == date_in(v@),
        r matches Some(d) ==> d.valid(),
        forall|d: DateTime|
            #![trigger dashed(d)]
            d.valid() && d.year >= 0 && v@ == encode_utf8(dashed(d)) ==> r == Some(d.whole()),
{
    let s = match from_utf8(v) {
        Some(s) => s,
        None => {
            proof {
                assert forall|d: DateTime|
                    #![trigger dashed(d)]
                    v@ == encode_utf8(dashed(d)) implies false by {
                    encode_utf8_valid_utf8(dashed(d));
                }
            }
            return None;
        },
    };
    proof {
        encode_utf8_decode_utf8(s@);
    }
    let t = trim(s);
    let first = read_civil(t.as_str());
    proof {
        assert forall|d: DateTime|
            #![trigger dashed(d)]
            d.valid() && d.year >= 0 && v@ == encode_utf8(dashed(d)) implies first == Some(
            d.whole(),
        ) by {
            encode_utf8_decode_utf8(dashed(d));
            dashed_needs_no_trim(d);
            assert(t@ == dashed(d));
        }
    }
    match first {
        Some(d) => Some(d),
        None => read_by_format("%Y%m%dT%H:%M:%S", t.as_str()),
    }
}

proof fn dashed_needs_no_trim(d: DateTime)
    requires
        d.valid(),
        d.year >= 0,
    ensures
        trimmed(dashed(d)) == dashed(d),
{
    let s = dashed(d);
    assert(s[0] == year_text(d.year as int)[0]);
    assert(s.last() == two(d.second as int)[1]);
    assert(trimmed_left(s) == s);
}

/// Reads an info file. The first `Path=` and `DeletionDate=` line of the
/// `[Trash Info]` group win; other lines are passed over, and the next group
/// header ends the group. What `encode` wrote comes back as it was, its date to
/// the second.
pub fn parse(text: &[u8]) -> (r: Result<(Vec<u8>, DateTime), &'static str>)
    ensures
        match r {
            Ok(got) => parsed(text@) == Ok::<(Seq<u8>, DateTime), Seq<char>>((got.0@, got.1))
                && got.1.valid(),
            Err(e) => parsed(text@) == Err::<(Seq<u8>, DateTime), Seq<char>>(e@),
        },
        forall|path: Seq<u8>, date: DateTime|
            #![trigger info_text(path, date)]
            date.valid() && date.year >= 0 && text@ == info_text(path, date) ==> (r matches Ok(got)
                && got.0@ == path && got.1 == date.whole()),
{
    let raw = split(text, 0x0a);
    proof {
        split_then_join(text@, 0x0a);
    }
    let ghost pieces = split_on(text@, 0x0a);
    let mut lines: Vec<Vec<u8>> = Vec::new();
    let mut i: usize = 0;
    while i < raw.len()
        invariant
            i <= raw.len(),
            views(raw@) == pieces,
            lines@.len() == i,
            forall|k: int| 0 <= k < i ==> (#[trigger] lines@[k])@ == trimmed_end(pieces[k]),
        decreases raw.len() - i,
    {
        assert(raw@[i as int]@ == pieces[i as int]);
        lines.push(trim_end(raw[i].as_slice()));
        i = i + 1;
    }
    assert(views(lines@) =~= lines_of(text@));
    let ghost body = lines_of(text@).skip(1);
    proof {
        assert forall|path: Seq<u8>, date: DateTime|
            #![trigger info_text(path, date)]
            date.valid() && date.year >= 0 && text@ == info_text(path, date) implies lines_of(
            text@,
        )[0] == lit("[Trash Info]") && first_value(body, lit("DeletionDate=")) == Some(
            encode_utf8(dashed(date)),
        ) && first_value(body, lit("Path=")) == Some(encoded(path)) by {
            reading_back(path, date);
        }
    }
    let header = of("[Trash Info]");
    assert(lines@[0]@ == lines_of(text@)[0]);
    if !same(lines[0].as_slice(), header.as_slice()) {
        return Err("first line is not [Trash Info]");
    }
    let date = match find_value(&lines, "DeletionDate=") {
        None => return Err("no DeletionDate"),
        Some(v) => match parse_date(v.as_slice()) {
            None => return Err("bad DeletionDate"),
            Some(d) => d,
        },
    };
    match find_value(&lines, "Path=") {
        None => Err("no Path"),
        Some(p) => {
            let path = decode(p.as_slice());
            proof {
                assert forall|path: Seq<u8>, date: DateTime|
                    #![trigger info_text(path, date)]
                    date.valid() && date.year >= 0 && text@ == info_text(path, date) implies decoded(
                    p@,
                ) == path by {
                    decode_undoes_encode(path);
                }
            }
            Ok((path, date))
        },
    }
}

proof fn ends_plain(s: Seq<u8>)
    requires
        s.len() > 0,
        s.last() > 0x20,
    ensures
        trimmed_end(s) == s,
{
}

/// The lines of an info file come back as they were written.
proof fn reading_back(path: Seq<u8>, date: DateTime)
    requires
        date.valid(),
        date.year >= 0,
    ensures
        lines_of(info_text(path, date))[0] == lit("[Trash Info]"),
        first_value(lines_of(info_text(path, date)).skip(1), lit("DeletionDate=")) == Some(
            encode_utf8(dashed(date)),
        ),
        first_value(lines_of(info_text(path, date)).skip(1), lit("Path=")) == Some(encoded(path)),
{
    let lines = info_lines(path, date);
    let text = info_text(path, date);
    let d = encode_utf8(dashed(date));
    reveal_strlit("[Trash Info]");
    reveal_strlit("Path=");
    reveal_strlit("DeletionDate=");
    reveal_strlit("[");
    is_ascii_chars_encode_utf8("[Trash Info]"@);
    is_ascii_chars_encode_utf8("Path="@);
    is_ascii_chars_encode_utf8("DeletionDate="@);
    is_ascii_chars_encode_utf8("["@);
    let h = lit("[Trash Info]");
    let pk = lit("Path=");
    let dk = lit("DeletionDate=");
    let open = lit("[");
    assert(h.len() == 12 && pk.len() == 5 && dk.len() == 13 && open.len() == 1);
    assert(pk[0] == 0x50 && dk[0] == 0x44 && open[0] == 0x5b && h[11] == 0x5d && pk[4] == 0x3d);
    dashed_is_plain(date);
    encoded_is_plain(path);
    info_lines_hold_no_newline(path, date);
    join_then_split(lines, 0x0a);
    let got = lines_of(text);
    assert(split_on(text, 0x0a) == lines);
    ends_plain(h);
    ends_plain(lines[1]);
    ends_plain(lines[2]);
    assert(got =~= lines);
    let body = got.skip(1);
    assert(body[0] == lines[1] && body[1] == lines[2]);
    assert(lines[1][0] == 0x50 && lines[2][0] == 0x44);
    assert(lines[1].take(1)[0] == lines[1][0]);
    assert(lines[2].take(1)[0] == lines[2][0]);
    assert(!has_prefix(lines[1], open));
    assert(!has_prefix(lines[2], open));
    assert(lines[1].take(5) =~= pk);
    assert(lines[1].skip(5) =~= encoded(path));
    assert(lines[2].take(13) =~= dk);
    assert(lines[2].skip(13) =~= d);
    assert(!has_prefix(lines[1], dk)) by {
        if has_prefix(lines[1], dk) {
            assert(lines[1].take(13)[0] == lines[1][0]);
        }
    }
    assert(body.skip(1)[0] == lines[2]);
    reveal_with_fuel(first_value, 3);
}

proof fn info_lines_hold_no_newline(path: Seq<u8>, date: DateTime)
    requires
        date.valid(),
        date.year >= 0,
    ensures
        forall|i: int|
            0 <= i < info_lines(path, date).len() ==> !(#[trigger] info_lines(
                path,
                date,
            )[i]).contains(0x0a),
{
    let lines = info_lines(path, date);
    let d = encode_utf8(dashed(date));
    reveal_strlit("[Trash Info]");
    reveal_strlit("Path=");
    reveal_strlit("DeletionDate=");
    is_ascii_chars_encode_utf8("[Trash Info]"@);
    is_ascii_chars_encode_utf8("Path="@);
    is_ascii_chars_encode_utf8("DeletionDate="@);
    let h = lit("[Trash Info]");
    let pk = lit("Path=");
    let dk = lit("DeletionDate=");
    assert(h.len() == 12 && pk.len() == 5 && dk.len() == 13);
    dashed_is_plain(date);
    encoded_is_plain(path);
    assert forall|i: int| 0 <= i < lines.len() implies !(#[trigger] lines[i]).contains(0x0a) by {
        if i == 0 {
            assert(forall|k: int| 0 <= k < 12 ==> h[k] != 0x0a);
        } else if i == 1 {
            let l = pk + encoded(path);
            assert forall|k: int| 0 <= k < l.len() implies l[k] != 0x0a by {
                if k >= 5 {
                    assert(l[k] == encoded(path)[k - 5]);
                }
            }
        } else if i == 2 {
            let l = dk + d;
            assert forall|k: int| 0 <= k < l.len() implies l[k] != 0x0a by {
                if k >= 13 {
                    assert(l[k] == d[k - 13]);
                }
            }
        }
    }
}

proof fn dashed_is_plain(date: DateTime)
    requires
        date.valid(),
        date.year >= 0,
    ensures
        encode_utf8(dashed(date)).len() > 0,
        forall|i: int|
            0 <= i < encode_utf8(dashed(date)).len() ==> 0x20 < #[trigger] encode_utf8(
                dashed(date),
            )[i] < 0x80,
{
    let s = dashed(date);
    assert(s.len() == 19);
    assert forall|i: int| 0 <= i < s.len() implies 0x20 < (#[trigger] s[i] as u32) < 0x80 by {
    }
    assert(is_ascii_chars(s));
    is_ascii_chars_encode_utf8(s);
}

// ---------------------------------------------------------------------------
// The original path
// ---------------------------------------------------------------------------

/// The path an info file names, or what is wrong with it.
pub open spec fn original_of(kind: Kind, base: Seq<u8>, path: Seq<u8>) -> Result<
    Seq<u8>,
    Seq<char>,
> {
    let full = comps(
        if absolute(path) {
            path
        } else {
            joined(base, path)
        },
    );
    if path.len() == 0 || path.contains(0) {
        Err("empty Path or NUL byte"@)
    } else if comps(path).contains(parent_comp()) {
        Err("'..' in Path"@)
    } else if kind != Kind::Home && (!under(full, comps(base)) || full == comps(base)) {
        Err("Path is outside its topdir"@)
    } else {
        Ok(rendered(full))
    }
}

/// A topdir's info file names only paths strictly beneath the topdir, and
/// nothing on the way there leads up again.
pub proof fn original_stays_beneath(kind: Kind, base: Seq<u8>, path: Seq<u8>)
    requires
        kind != Kind::Home,
        base.len() > 0,
        original_of(kind, base, path) is Ok,
    ensures
        ({
            let p = comps(original_of(kind, base, path)->Ok_0);
            let b = comps(base);
            under(p, b) && b.len() < p.len() && !p.skip(b.len() as int).contains(parent_comp())
        }),
{
    let b = comps(base);
    let text = if absolute(path) {
        path
    } else {
        joined(base, path)
    };
    let full = comps(text);
    comps_are_well_formed(text);
    rendered_keeps_comps(full);
    assert(full.take(full.len() as int) =~= full);
    let rest = full.skip(b.len() as int);
    if rest.contains(parent_comp()) {
        let i = choose|i: int| 0 <= i < rest.len() && rest[i] == parent_comp();
        if absolute(path) {
            assert(full[b.len() + i] == parent_comp());
            assert(comps(path).contains(parent_comp()));
        } else {
            comps_of_joined(base, path);
            let names = names_in(split_on(path, SLASH));
            assert(rest =~= names);
            let own = comps(path);
            let skip = own.len() - names.len();
            assert(own[skip + i] == names[i]);
            assert(own.contains(parent_comp()));
        }
    }
}

/// A path in an info file is taken just where it is not empty, holds no NUL and
/// no `..`, and in a topdir trash leads strictly beneath the topdir. An absolute
/// path is then itself, any other goes on from the base.
pub proof fn a_path_is_taken_from_its_base(kind: Kind, base: Seq<u8>, path: Seq<u8>)
    requires
        base.len() > 0,
    ensures
        ({
            let full = if path.len() > 0 && path[0] == 0x2f {
                comps(path)
            } else {
                comps(joined(base, path))
            };
            let r = original_of(kind, base, path);
            &&& r is Ok <==> {
                &&& path.len() > 0
                &&& !path.contains(0)
                &&& !comps(path).contains(seq![0x2eu8, 0x2eu8])
                &&& kind is Home || (under(full, comps(base)) && comps(base).len() < full.len())
            }
            &&& r matches Ok(p) ==> comps(p) == full
            &&& path.len() == 0 || path.contains(0) ==> r == Err::<Seq<u8>, Seq<char>>(
                "empty Path or NUL byte"@,
            )
            &&& path.len() > 0 && !path.contains(0) && comps(path).contains(
                seq![0x2eu8, 0x2eu8],
            ) ==> r == Err::<Seq<u8>, Seq<char>>("'..' in Path"@)
        }),
{
    let full = if absolute(path) {
        comps(path)
    } else {
        comps(joined(base, path))
    };
    comps_are_well_formed(path);
    comps_are_well_formed(joined(base, path));
    rendered_keeps_comps(full);
    let b = comps(base);
    if under(full, b) && full.len() == b.len() {
        assert(full.take(full.len() as int) =~= full);
    }
}

fn has_parent(c: &Vec<Vec<u8>>) -> (r: bool)
    ensures
        r == views(c@).contains(parent_comp()),
{
    let mut up: Vec<u8> = Vec::new();
    up.push(0x2e);
    up.push(0x2e);
    assert(up@ =~= parent_comp());
    let mut i: usize = 0;
    while i < c.len()
        invariant
            i <= c.len(),
            up@ == parent_comp(),
            forall|k: int| 0 <= k < i ==> #[trigger] views(c@)[k] != parent_comp(),
        decreases c.len() - i,
    {
        if same(c[i].as_slice(), up.as_slice()) {
            assert(views(c@)[i as int] == parent_comp());
            return true;
        }
        i = i + 1;
    }
    false
}

fn has_byte(s: &[u8], b: u8) -> (r: bool)
    ensures
        r == s@.contains(b),
{
    crate::bytes::find(s, b).is_some()
}

/// Resolves a decoded `Path=` value to an absolute path. An empty path, a NUL
/// byte and a `..` are refused. In a topdir trash the path must lie strictly
/// beneath `base`; a home trash takes any absolute path.
pub fn original(kind: Kind, base: &[u8], path: &[u8]) -> (r: Result<Vec<u8>, &'static str>)
    ensures
        match r {
            Ok(p) => original_of(kind, base@, path@) == Ok::<Seq<u8>, Seq<char>>(p@),
            Err(e) => original_of(kind, base@, path@) == Err::<Seq<u8>, Seq<char>>(e@),
        },
{
    if path.len() == 0 || has_byte(path, 0) {
        return Err("empty Path or NUL byte");
    }
    if has_parent(&components(path)) {
        return Err("'..' in Path");
    }
    let full = if is_absolute(path) {
        components(path)
    } else {
        components(join(base, path).as_slice())
    };
    if kind != Kind::Home {
        let b = components(base);
        let inside = begins_with(full.as_slice(), b.as_slice());
        assert(views(full@).take(views(full@).len() as int) =~= views(full@));
        if !inside || full.len() == b.len() {
            assert(!under(views(full@), views(b@)) || views(full@) == views(b@));
            return Err("Path is outside its topdir");
        }
    }
    Ok(render(full.as_slice()))
}

// ---------------------------------------------------------------------------
// Names that do not collide
// ---------------------------------------------------------------------------

/// `~k`, or nothing for the first name.
pub open spec fn suffix(k: nat) -> Seq<u8> {
    if k == 0 {
        Seq::empty()
    } else {
        encode_utf8(seq!['~'] + decimal(k))
    }
}

/// The longest cut of `name` within `n` bytes that splits no character; a name
/// that is not UTF-8 is cut anywhere.
pub open spec fn cut(name: Seq<u8>, n: int) -> int
    decreases n,
{
    if n <= 0 {
        0
    } else if valid_utf8(name) && !is_char_boundary(name, n) {
        cut(name, n - 1)
    } else {
        n
    }
}

/// What is left of a name's 255 bytes.
pub open spec fn room(k: nat, reserve: int) -> int {
    255 - reserve - suffix(k).len()
}

/// The `k`th name to try for `name`, with `reserve` bytes to spare.
pub open spec fn candidate_of(name: Seq<u8>, k: nat, reserve: int) -> Seq<u8> {
    let n = if name.len() <= room(k, reserve) {
        name.len() as int
    } else {
        room(k, reserve)
    };
    name.take(cut(name, n)) + suffix(k)
}

/// The suffix of the `k`th name is `~` and the digits of `k`, one byte each.
pub proof fn suffix_bytes(k: nat)
    requires
        k > 0,
    ensures
        suffix(k).len() == decimal(k).len() + 1,
        suffix(k)[0] == 0x7e,
        forall|i: int| 0 <= i < decimal(k).len() ==> #[trigger] suffix(k)[i + 1] == decimal(k)[i] as u8,
        valid_utf8(suffix(k)),
{
    let s = seq!['~'] + decimal(k);
    decimal_is_digits(k);
    assert forall|i: int| 0 <= i < s.len() implies 0 <= (#[trigger] s[i] as u32) < 0x80 by {
        if i > 0 {
            assert(s[i] == decimal(k)[i - 1]);
        }
    }
    assert(is_ascii_chars(s));
    is_ascii_chars_encode_utf8(s);
    encode_utf8_valid_utf8(s);
    assert forall|i: int| 0 <= i < decimal(k).len() implies #[trigger] suffix(k)[i + 1] == decimal(
        k,
    )[i] as u8 by {
        assert(s[i + 1] == decimal(k)[i]);
    }
}

proof fn cut_bounds(name: Seq<u8>, n: int)
    requires
        0 <= n <= name.len(),
    ensures
        0 <= cut(name, n) <= n,
        valid_utf8(name) ==> is_char_boundary(name, cut(name, n)),
    decreases n,
{
    if n > 0 && valid_utf8(name) && !is_char_boundary(name, n) {
        cut_bounds(name, n - 1);
    }
    if n == 0 && valid_utf8(name) {
        is_char_boundary_start_end_of_seq(name);
    }
}

/// A name from `candidate` fits: with its reserve it is at most 255 bytes long,
/// and a name in UTF-8 stays UTF-8.
pub proof fn candidate_fits(name: Seq<u8>, k: nat, reserve: int)
    requires
        0 <= reserve,
        0 <= room(k, reserve),
    ensures
        candidate_of(name, k, reserve).len() + reserve <= 255,
        valid_utf8(name) ==> valid_utf8(candidate_of(name, k, reserve)),
{
    let n = if name.len() <= room(k, reserve) {
        name.len() as int
    } else {
        room(k, reserve)
    };
    cut_bounds(name, n);
    if valid_utf8(name) {
        let c = cut(name, n);
        valid_utf8_split(name, c);
        assert(name.take(c) =~= name.subrange(0, c));
        if k > 0 {
            suffix_bytes(k);
        }
        valid_utf8_concat(name.take(c), suffix(k));
    }
}

/// The first name to try is the name itself, where it fits.
pub proof fn first_candidate_is_the_name(name: Seq<u8>, reserve: int)
    requires
        0 <= reserve,
        name.len() + reserve <= 255,
    ensures
        candidate_of(name, 0, reserve) == name,
{
    if valid_utf8(name) {
        is_char_boundary_start_end_of_seq(name);
    }
    assert(candidate_of(name, 0, reserve) =~= name);
}

/// A name is cut no more than it has to be: all of it stays where there is room,
/// and else as much as fits without splitting a character.
pub proof fn no_more_is_cut_than_needed(name: Seq<u8>, k: nat, reserve: int)
    requires
        0 <= reserve,
        0 <= 255 - reserve - suffix(k).len(),
    ensures
        ({
            let space = 255 - reserve - suffix(k).len();
            let kept = candidate_of(name, k, reserve).len() - suffix(k).len();
            &&& 0 <= kept <= name.len()
            &&& candidate_of(name, k, reserve) == name.take(kept) + suffix(k)
            &&& name.len() <= space ==> kept == name.len()
            &&& !valid_utf8(name) && space < name.len() ==> kept == space
            &&& valid_utf8(name) ==> forall|n: int|
                kept < n <= space && n <= name.len() ==> !#[trigger] is_char_boundary(name, n)
        }),
{
    let space = room(k, reserve);
    let n = if name.len() <= space {
        name.len() as int
    } else {
        space
    };
    cut_bounds(name, n);
    cut_is_longest(name, n);
    if valid_utf8(name) {
        is_char_boundary_start_end_of_seq(name);
    }
    assert(candidate_of(name, k, reserve) =~= name.take(cut(name, n)) + suffix(k));
}

proof fn cut_is_longest(name: Seq<u8>, n: int)
    requires
        0 <= n <= name.len(),
    ensures
        valid_utf8(name) ==> forall|m: int|
            cut(name, n) < m <= n ==> !#[trigger] is_char_boundary(name, m),
        !valid_utf8(name) ==> cut(name, n) == n,
    decreases n,
{
    if n > 0 && valid_utf8(name) && !is_char_boundary(name, n) {
        cut_is_longest(name, n - 1);
    }
}

/// The first name has no suffix, and the others have `~` and their number.
pub proof fn a_suffix_is_a_number(k: nat)
    ensures
        suffix(0).len() == 0,
        k > 0 ==> suffix(k) == encode_utf8(seq!['~'] + decimal(k)),
{
}

/// Two numbered names for one file are two names.
pub proof fn numbered_candidates_differ(name: Seq<u8>, j: nat, k: nat, reserve: int)
    requires
        0 < j,
        0 < k,
        j != k,
        0 <= reserve,
        0 <= room(j, reserve),
        0 <= room(k, reserve),
    ensures
        candidate_of(name, j, reserve) != candidate_of(name, k, reserve),
{
    let a = candidate_of(name, j, reserve);
    let b = candidate_of(name, k, reserve);
    let sj = suffix(j);
    let sk = suffix(k);
    suffix_bytes(j);
    suffix_bytes(k);
    decimal_is_digits(j);
    decimal_is_digits(k);
    if a == b {
        let n = a.len();
        assert forall|i: int| 0 <= i < sj.len() implies a[n - sj.len() + i] == sj[i] by {
        }
        assert forall|i: int| 0 <= i < sk.len() implies b[n - sk.len() + i] == sk[i] by {
        }
        if sj.len() == sk.len() {
            assert forall|i: int| 0 <= i < decimal(j).len() implies decimal(j)[i] == decimal(
                k,
            )[i] by {
                assert(sj[i + 1] == a[n - sj.len() + i + 1]);
                assert(sk[i + 1] == a[n - sk.len() + i + 1]);
                assert('0' <= decimal(j)[i] <= '9' && '0' <= decimal(k)[i] <= '9');
            }
            assert(decimal(j) =~= decimal(k));
            decimal_is_injective(j, k);
        } else if sj.len() < sk.len() {
            let at = sk.len() - sj.len();
            assert(a[n - sj.len()] == sj[0]);
            assert(b[n - sk.len() + at] == sk[at]);
            assert(sk[(at - 1) + 1] == decimal(k)[at - 1] as u8);
            assert('0' <= decimal(k)[at - 1] <= '9');
        } else {
            let at = sj.len() - sk.len();
            assert(b[n - sk.len()] == sk[0]);
            assert(a[n - sj.len() + at] == sj[at]);
            assert(sj[(at - 1) + 1] == decimal(j)[at - 1] as u8);
            assert('0' <= decimal(j)[at - 1] <= '9');
        }
    }
}

/// `name`, or `name~k` for `k > 0`, cut so that the result and `reserve` more
/// bytes fit a file name (255 bytes). A UTF-8 name is cut between characters.
pub fn candidate(name: &[u8], k: u64, reserve: usize) -> (r: Vec<u8>)
    requires
        room(k as nat, reserve as int) >= 0,
    ensures
        r@ == candidate_of(name@, k as nat, reserve as int),
{
    let mut tail: Vec<u8> = Vec::new();
    if k > 0 {
        let mut t = String::new();
        t.push('~');
        t.append(number(k).as_str());
        assert(t@ =~= seq!['~'] + decimal(k as nat));
        tail = copy(t.as_str().as_bytes());
    }
    assert(tail@ =~= suffix(k as nat));
    let space: usize = 255 - reserve - tail.len();
    let mut end: usize = if name.len() <= space {
        name.len()
    } else {
        space
    };
    let ghost n = end as int;
    if let Some(s) = from_utf8(name) {
        proof {
            is_char_boundary_start_end_of_seq(name@);
        }
        while !s.is_char_boundary(end)
            invariant
                s.spec_bytes() == name@,
                valid_utf8(name@),
                is_char_boundary(name@, 0),
                end <= n <= name@.len(),
                cut(name@, end as int) == cut(name@, n),
            decreases end,
        {
            end = end - 1;
        }
        assert(cut(name@, n) == end);
    } else {
        assert(cut(name@, n) == end);
    }
    let part = slice_subrange(name, 0, end);
    assert(part@ =~= name@.take(end as int));
    let mut r = copy(part);
    append(&mut r, tail.as_slice());
    r
}

} // verus!
