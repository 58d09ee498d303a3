//! The command line, the configuration, questions and exit codes.
use vstd::prelude::*;
use vstd::string::*;

use crate::bytes::{copy, has_prefix, lit, of, same, strip_prefix};
use crate::dates::{read_span, span_reading, Age};
use crate::mounts::Mounts;
use crate::paths::{absolute, is_absolute, join, joined};
use crate::text::{
    chars_of, debug_text, decimal, decimal_grows_by_its_last_digit, decimal_is_digits, escape,
    escaped, kib, only_the_ends_are_trimmed, quoted, text_of, trim, trimmed,
};
use crate::trash::{abs_var, var_view};

verus! {

// ---------------------------------------------------------------------------
// The first word
// ---------------------------------------------------------------------------

/// What the first word that is not an option is.
pub enum First {
    Nothing,
    File,
    Subcommand,
    /// A subcommand's name behind a flag: neither meaning is taken.
    SubcommandAfterRmFlags(Vec<u8>),
}

/// What a `First` holds.
pub enum FirstView {
    Nothing,
    File,
    Subcommand,
    SubcommandAfterRmFlags(Seq<u8>),
}

impl View for First {
    type V = FirstView;

    open spec fn view(&self) -> FirstView {
        match self {
            First::Nothing => FirstView::Nothing,
            First::File => FirstView::File,
            First::Subcommand => FirstView::Subcommand,
            First::SubcommandAfterRmFlags(w) => FirstView::SubcommandAfterRmFlags(w@),
        }
    }
}

/// The names of the subcommands.
pub open spec fn subcommand(w: Seq<u8>) -> bool {
    w == lit("undo") || w == lit("list") || w == lit("restore") || w == lit("empty") || w == lit(
        "purge",
    )
}

/// An option that takes the next word as its value.
pub open spec fn takes_value(w: Seq<u8>) -> bool {
    w == lit("--config") || w == lit("--completions")
}

/// An option that says nothing about files: with its value in the word, or one
/// that prints and ends.
pub open spec fn neutral(w: Seq<u8>) -> bool {
    has_prefix(w, lit("--config=")) || has_prefix(w, lit("--completions=")) || w == lit("-h") || w
        == lit("--help") || w == lit("-V") || w == lit("--version")
}

/// What the words from here on begin with; `flags`: a flag came before.
pub open spec fn first_of(words: Seq<Seq<u8>>, flags: bool) -> FirstView
    decreases words.len(),
{
    if words.len() == 0 {
        FirstView::Nothing
    } else {
        let w = words[0];
        if w == lit("--") {
            FirstView::File
        } else if takes_value(w) {
            if words.len() == 1 {
                FirstView::Nothing
            } else {
                first_of(words.skip(2), flags)
            }
        } else if neutral(w) {
            first_of(words.skip(1), flags)
        } else if w.len() >= 2 && w[0] == 0x2d {
            first_of(words.skip(1), true)
        } else if !subcommand(w) {
            FirstView::File
        } else if flags {
            FirstView::SubcommandAfterRmFlags(w)
        } else {
            FirstView::Subcommand
        }
    }
}

fn is_word(w: &[u8], text: &str) -> (r: bool)
    ensures
        r == (w@ == lit(text)),
{
    same(w, of(text).as_slice())
}

fn begins(w: &[u8], text: &str) -> (r: bool)
    ensures
        r == has_prefix(w@, lit(text)),
{
    strip_prefix(w, of(text).as_slice()).is_some()
}

/// Whether a word is a subcommand's name.
pub fn is_subcommand(w: &[u8]) -> (r: bool)
    ensures
        r == subcommand(w@),
{
    is_word(w, "undo") || is_word(w, "list") || is_word(w, "restore") || is_word(w, "empty")
        || is_word(w, "purge")
}

/// Classifies the first word that is not an option, the program's own name left
/// out. The values of `--config` and `--completions` are passed over.
pub fn first_word(args: &Vec<Vec<u8>>) -> (r: First)
    ensures
        r@ == first_of(
            if args@.len() == 0 {
                Seq::empty()
            } else {
                crate::bytes::views(args@).skip(1)
            },
            false,
        ),
{
    let ghost all = crate::bytes::views(args@);
    let ghost words = if args@.len() == 0 {
        Seq::empty()
    } else {
        all.skip(1)
    };
    let mut flags = false;
    let mut i: usize = 1;
    assert(words.skip(0) =~= words);
    while i < args.len()
        invariant
            1 <= i,
            all == crate::bytes::views(args@),
            args@.len() > 0 ==> words == all.skip(1),
            args@.len() == 0 ==> words == Seq::<Seq<u8>>::empty(),
            args@.len() > 0 ==> i <= args@.len(),
            first_of(words, false) == first_of(words.skip(i - 1), flags),
        decreases args.len() - i,
    {
        let w = args[i].as_slice();
        let ghost rest = words.skip(i - 1);
        assert(rest[0] == w@);
        assert(rest.skip(1) =~= words.skip(i as int));
        if is_word(w, "--") {
            return First::File;
        }
        if is_word(w, "--config") || is_word(w, "--completions") {
            if args.len() - i < 2 {
                return First::Nothing;
            }
            assert(rest.skip(2) =~= words.skip(i + 1));
            i = i + 1;
        } else if begins(w, "--config=") || begins(w, "--completions=") || is_word(w, "-h")
            || is_word(w, "--help") || is_word(w, "-V") || is_word(w, "--version") {
        } else if w.len() >= 2 && w[0] == 0x2d {
            flags = true;
        } else if !is_subcommand(w) {
            return First::File;
        } else if flags {
            return First::SubcommandAfterRmFlags(copy(w));
        } else {
            return First::Subcommand;
        }
        i = i + 1;
    }
    assert(args@.len() > 0 ==> words.skip(i - 1) =~= Seq::empty());
    First::Nothing
}

/// The hint for a subcommand's name behind a flag.
pub fn flags_hint(name: &[u8]) -> (s: String)
    ensures
        s@ == "rm-style flags cannot come before the subcommand '"@ + escaped(name@)
            + "'\n  to trash a file named '"@ + escaped(name@) + "', write: rip -- "@ + escaped(
            name@,
        ),
{
    let n = escape(name);
    let mut s = String::from_str("rm-style flags cannot come before the subcommand '");
    s.append(n.as_str());
    s.append("'\n  to trash a file named '");
    s.append(n.as_str());
    s.append("', write: rip -- ");
    s.append(n.as_str());
    s
}

/// A flag of `rm`, or any other option that says something about files.
pub open spec fn rm_flag(w: Seq<u8>) -> bool {
    w.len() >= 2 && w[0] == 0x2d && w != lit("--") && !takes_value(w) && !neutral(w)
}

/// The words before the `i`th are options that say nothing about files, and the
/// values of such options.
pub open spec fn passed_over(words: Seq<Seq<u8>>, i: int) -> bool {
    forall|j: int|
        0 <= j < i ==> (takes_value(#[trigger] words[j]) || neutral(words[j]) || (j > 0
            && takes_value(words[j - 1])))
}

/// A subcommand is run only for a word that is its name, with nothing before it
/// but options that say nothing about files. Behind a flag its name is refused,
/// and behind `--` it is a file.
pub proof fn a_subcommand_is_the_first_word(words: Seq<Seq<u8>>, flags: bool)
    ensures
        first_of(words, flags) is Subcommand ==> !flags && (exists|i: int|
            0 <= i < words.len() && subcommand(#[trigger] words[i]) && passed_over(words, i)),
        first_of(words, flags) matches FirstView::SubcommandAfterRmFlags(w) ==> subcommand(w)
            && words.contains(w) && (flags || exists|j: int|
            0 <= j < words.len() && rm_flag(#[trigger] words[j])),
        words.len() > 0 && words[0] == lit("--") ==> first_of(words, flags) is File,
    decreases words.len(),
{
    if words.len() > 0 && words[0] != lit("--") {
        let w = words[0];
        let n: int = if takes_value(w) {
            2
        } else {
            1
        };
        if (takes_value(w) && words.len() > 1) || (!takes_value(w) && (neutral(w) || (w.len() >= 2
            && w[0] == 0x2d))) {
            let rest = words.skip(n);
            let f = flags || rm_flag(w);
            a_subcommand_is_the_first_word(rest, f);
            assert(first_of(words, flags) == first_of(rest, f));
            if first_of(rest, f) is Subcommand {
                let i = choose|i: int|
                    0 <= i < rest.len() && subcommand(#[trigger] rest[i]) && passed_over(rest, i);
                assert(rest[i] == words[i + n]);
                assert forall|j: int| 0 <= j < i + n implies (takes_value(#[trigger] words[j])
                    || neutral(words[j]) || (j > 0 && takes_value(words[j - 1]))) by {
                    if j >= n {
                        assert(rest[j - n] == words[j]);
                        if j > n {
                            assert(rest[j - n - 1] == words[j - 1]);
                        }
                    }
                }
                assert(subcommand(words[i + n]) && passed_over(words, i + n));
            }
            if let FirstView::SubcommandAfterRmFlags(x) = first_of(rest, f) {
                let k = choose|k: int| 0 <= k < rest.len() && rest[k] == x;
                assert(words[k + n] == x);
                if !flags && !rm_flag(w) {
                    let j = choose|j: int| 0 <= j < rest.len() && rm_flag(#[trigger] rest[j]);
                    assert(rm_flag(words[j + n]));
                } else if !flags {
                    assert(rm_flag(words[0]));
                }
            }
        } else if subcommand(w) && !takes_value(w) {
            assert(subcommand(words[0]) && passed_over(words, 0));
        }
    }
}

/// Words are taken one by one. `--` makes the rest files. `--config` and
/// `--completions` take the next word with them; with their value, and the options
/// for help and version, they are passed over. Any other option is a flag. The
/// first word that is left is a subcommand's name or a file, and a name behind a
/// flag is neither.
pub proof fn words_are_taken_one_by_one(w: Seq<u8>, rest: Seq<Seq<u8>>, flags: bool)
    ensures
        ({
            let words = seq![w] + rest;
            let r = first_of(words, flags);
            let valued = w == lit("--config") || w == lit("--completions");
            let passed = has_prefix(w, lit("--config=")) || has_prefix(w, lit("--completions="))
                || w == lit("-h") || w == lit("--help") || w == lit("-V") || w == lit("--version");
            let named = w == lit("undo") || w == lit("list") || w == lit("restore") || w == lit(
                "empty",
            ) || w == lit("purge");
            if w == lit("--") {
                r == FirstView::File
            } else if valued && rest.len() == 0 {
                r == FirstView::Nothing
            } else if valued {
                r == first_of(rest.skip(1), flags)
            } else if passed {
                r == first_of(rest, flags)
            } else if w.len() >= 2 && w[0] == '-' as u8 {
                r == first_of(rest, true)
            } else if named && flags {
                r == FirstView::SubcommandAfterRmFlags(w)
            } else if named {
                r == FirstView::Subcommand
            } else {
                r == FirstView::File
            }
        }),
        first_of(Seq::<Seq<u8>>::empty(), flags) == FirstView::Nothing,
{
    let words = seq![w] + rest;
    assert(words[0] == w);
    assert(words.skip(1) =~= rest);
    if rest.len() > 0 {
        assert(words.skip(2) =~= rest.skip(1));
    }
}

// ---------------------------------------------------------------------------
// Sizes and ages
// ---------------------------------------------------------------------------

/// A decimal digit.
pub open spec fn is_digit(c: char) -> bool {
    '0' <= c <= '9'
}

/// How many characters at the start of `s` are digits, from the `i`th on.
pub open spec fn digits_end(s: Seq<char>, i: int) -> int
    decreases s.len() - i,
{
    if 0 <= i < s.len() && is_digit(s[i]) {
        digits_end(s, i + 1)
    } else {
        i
    }
}

/// The number that digits write.
pub open spec fn number_of(s: Seq<char>) -> nat
    decreases s.len(),
{
    if s.len() == 0 {
        0
    } else {
        10 * number_of(s.drop_last()) + (s.last() as u32 - 0x30) as nat
    }
}

/// The power of 1024 that a unit stands for.
pub open spec fn unit_power(u: Seq<char>) -> Option<nat> {
    if u == Seq::<char>::empty() || u == seq!['B'] {
        Some(0)
    } else if u == seq!['K'] || u == seq!['k'] || u == seq!['K', 'i', 'B'] {
        Some(1)
    } else if u == seq!['M'] || u == seq!['m'] || u == seq!['M', 'i', 'B'] {
        Some(2)
    } else if u == seq!['G'] || u == seq!['g'] || u == seq!['G', 'i', 'B'] {
        Some(3)
    } else if u == seq!['T'] || u == seq!['t'] || u == seq!['T', 'i', 'B'] {
        Some(4)
    } else {
        None
    }
}

/// The letter of a decimal unit (`kb`, `MB` and the like), in upper case.
pub open spec fn decimal_unit(u: Seq<char>) -> Option<char> {
    if u.len() == 2 && (u[1] == 'b' || u[1] == 'B') {
        if u[0] == 'k' || u[0] == 'K' {
            Some('K')
        } else if u[0] == 'm' || u[0] == 'M' {
            Some('M')
        } else if u[0] == 'g' || u[0] == 'G' {
            Some('G')
        } else if u[0] == 't' || u[0] == 'T' {
            Some('T')
        } else {
            None
        }
    } else {
        None
    }
}

/// The size that a text names, or what is wrong with it.
pub open spec fn size_in(s: Seq<char>) -> Result<u64, Seq<char>> {
    let t = trimmed(s);
    let d = digits_end(t, 0);
    let digits = t.take(d);
    let unit = t.skip(d);
    if d == 0 || number_of(digits) > u64::MAX {
        Err("invalid size "@ + debug_text(s) + ": use a whole number with K, M, G or T"@)
    } else {
        match unit_power(unit) {
            Some(k) => if number_of(digits) * kib(k) > u64::MAX {
                Err("size "@ + debug_text(s) + " is too large"@)
            } else {
                Ok((number_of(digits) * kib(k)) as u64)
            },
            None => match decimal_unit(unit) {
                Some(c) => Err(
                    "invalid size "@ + debug_text(s) + ": units are binary; write "@ + digits
                        + seq![c],
                ),
                None => Err("invalid size "@ + debug_text(s) + ": unknown unit"@),
            },
        }
    }
}

proof fn digits_end_bounds(s: Seq<char>, i: int)
    requires
        0 <= i <= s.len(),
    ensures
        i <= digits_end(s, i) <= s.len(),
        forall|k: int| i <= k < digits_end(s, i) ==> is_digit(#[trigger] s[k]),
        digits_end(s, i) < s.len() ==> !is_digit(s[digits_end(s, i)]),
    decreases s.len() - i,
{
    if i < s.len() && is_digit(s[i]) {
        digits_end_bounds(s, i + 1);
    }
}

fn digit_value(c: char) -> (d: u64)
    requires
        is_digit(c),
    ensures
        d == c as u32 - 0x30,
{
    (c as u32 - 0x30) as u64
}

proof fn number_grows(s: Seq<char>, n: int)
    requires
        0 <= n <= s.len(),
        forall|k: int| 0 <= k < s.len() ==> is_digit(#[trigger] s[k]),
    ensures
        number_of(s.take(n)) <= number_of(s),
    decreases s.len() - n,
{
    if n == s.len() {
        assert(s.take(n) =~= s);
    } else {
        assert(s.take(n + 1).drop_last() =~= s.take(n));
        number_grows(s, n + 1);
    }
}

fn read_number(v: &Vec<char>, d: usize) -> (r: Option<u64>)
    requires
        d <= v@.len(),
        forall|k: int| 0 <= k < d ==> is_digit(#[trigger] v@[k]),
    ensures
        match r {
            Some(n) => n == number_of(v@.take(d as int)),
            None => number_of(v@.take(d as int)) > u64::MAX,
        },
{
    let ghost all = v@.take(d as int);
    let mut n: u64 = 0;
    let mut i: usize = 0;
    while i < d
        invariant
            i <= d <= v@.len(),
            all == v@.take(d as int),
            forall|k: int| 0 <= k < d ==> is_digit(#[trigger] v@[k]),
            n == number_of(all.take(i as int)),
        decreases d - i,
    {
        assert(all.take(i + 1).drop_last() =~= all.take(i as int));
        assert(all[i as int] == v@[i as int]);
        let x: u64 = digit_value(v[i]);
        proof {
            assert forall|k: int| 0 <= k < all.len() implies is_digit(#[trigger] all[k]) by {
                assert(all[k] == v@[k]);
            }
            number_grows(all, i + 1);
        }
        n = match n.checked_mul(10) {
            None => return None,
            Some(m) => match m.checked_add(x) {
                None => return None,
                Some(s) => s,
            },
        };
        i = i + 1;
    }
    assert(all.take(d as int) =~= all);
    Some(n)
}

proof fn unit_sizes()
    ensures
        kib(0) == 1,
        kib(1) == 1024,
        kib(2) == 1048576,
        kib(3) == 1073741824,
        kib(4) == 1099511627776,
{
    reveal_with_fuel(kib, 2);
    assert(kib(1) == 1024 * kib(0));
    assert(kib(2) == 1024 * kib(1));
    assert(kib(3) == 1024 * kib(2));
    assert(kib(4) == 1024 * kib(3));
}

proof fn one_letter(u: Seq<char>, c: char)
    requires
        u.len() == 1,
        u[0] == c,
    ensures
        u == seq![c],
        unit_power(u) == (if c == 'B' {
            Some(0nat)
        } else if c == 'K' || c == 'k' {
            Some(1nat)
        } else if c == 'M' || c == 'm' {
            Some(2nat)
        } else if c == 'G' || c == 'g' {
            Some(3nat)
        } else if c == 'T' || c == 't' {
            Some(4nat)
        } else {
            None
        }),
{
    assert(u =~= seq![c]);
    assert forall|a: char| #[trigger] seq![a] == u implies a == c by {
        assert(seq![a][0] == a);
    }
    assert forall|a: char| u != #[trigger] seq![a, 'i', 'B'] by {
        assert(seq![a, 'i', 'B'].len() == 3);
    }
}

proof fn three_letters(u: Seq<char>, c: char)
    requires
        u.len() == 3,
        u[0] == c,
    ensures
        unit_power(u) == (if u[1] != 'i' || u[2] != 'B' {
            None
        } else if c == 'K' {
            Some(1nat)
        } else if c == 'M' {
            Some(2nat)
        } else if c == 'G' {
            Some(3nat)
        } else if c == 'T' {
            Some(4nat)
        } else {
            None
        }),
{
    assert(u =~= seq![c, u[1], u[2]]);
    assert forall|a: char| u != #[trigger] seq![a] by {
        assert(seq![a].len() == 1);
    }
    assert forall|a: char| #[trigger] seq![a, 'i', 'B'] == u implies a == c && u[1] == 'i' && u[2]
        == 'B' by {
        let s = seq![a, 'i', 'B'];
        assert(s[0] == a && s[1] == 'i' && s[2] == 'B');
    }
}

proof fn other_lengths(u: Seq<char>)
    requires
        u.len() != 0,
        u.len() != 1,
        u.len() != 3,
    ensures
        unit_power(u) is None,
{
    assert forall|a: char| u != #[trigger] seq![a] by {
        assert(seq![a].len() == 1);
    }
    assert forall|a: char| u != #[trigger] seq![a, 'i', 'B'] by {
        assert(seq![a, 'i', 'B'].len() == 3);
    }
}

fn unit_of_chars(v: &Vec<char>, d: usize) -> (r: Option<u64>)
    requires
        d <= v@.len(),
    ensures
        match r {
            Some(f) => unit_power(v@.skip(d as int)) is Some && f == kib(
                unit_power(v@.skip(d as int))->0,
            ),
            None => unit_power(v@.skip(d as int)) is None,
        },
{
    let ghost u = v@.skip(d as int);
    proof {
        unit_sizes();
    }
    let n: usize = v.len() - d;
    if n == 0 {
        assert(u =~= Seq::<char>::empty());
        return Some(1);
    }
    let c: char = v[d];
    assert(u[0] == c);
    if n == 1 {
        proof {
            one_letter(u, c);
        }
        if c == 'B' {
            Some(1)
        } else if c == 'K' || c == 'k' {
            Some(1024)
        } else if c == 'M' || c == 'm' {
            Some(1048576)
        } else if c == 'G' || c == 'g' {
            Some(1073741824)
        } else if c == 'T' || c == 't' {
            Some(1099511627776)
        } else {
            None
        }
    } else if n == 3 {
        proof {
            three_letters(u, c);
        }
        assert(u[1] == v@[d + 1] && u[2] == v@[d + 2]);
        if v[d + 1] != 'i' || v[d + 2] != 'B' {
            None
        } else if c == 'K' {
            Some(1024)
        } else if c == 'M' {
            Some(1048576)
        } else if c == 'G' {
            Some(1073741824)
        } else if c == 'T' {
            Some(1099511627776)
        } else {
            None
        }
    } else {
        proof {
            other_lengths(u);
        }
        None
    }
}

/// Reads a size: `500M`, `50G`, `1048576`, `4KiB`. Units are binary; `KB` and
/// the like are refused, so that nobody takes them for decimal ones.
pub fn parse_size(s: &str) -> (r: Result<u64, String>)
    ensures
        match r {
            Ok(n) => size_in(s@) == Ok::<u64, Seq<char>>(n),
            Err(e) => size_in(s@) == Err::<u64, Seq<char>>(e@),
        },
{
    let t = trim(s);
    let v = chars_of(t.as_str());
    let mut d: usize = 0;
    while d < v.len() && '0' <= v[d] && v[d] <= '9'
        invariant
            d <= v.len(),
            digits_end(v@, 0) == digits_end(v@, d as int),
        decreases v.len() - d,
    {
        d = d + 1;
    }
    proof {
        digits_end_bounds(v@, 0);
    }
    let n = if d == 0 {
        None
    } else {
        read_number(&v, d)
    };
    let n: u64 = match n {
        Some(n) => n,
        None => {
            let mut e = String::from_str("invalid size ");
            e.append(quoted(s).as_str());
            e.append(": use a whole number with K, M, G or T");
            return Err(e);
        },
    };
    match unit_of_chars(&v, d) {
        Some(f) => match n.checked_mul(f) {
            Some(x) => Ok(x),
            None => {
                let mut e = String::from_str("size ");
                e.append(quoted(s).as_str());
                e.append(" is too large");
                Err(e)
            },
        },
        None => {
            let ghost u = v@.skip(d as int);
            if v.len() - d == 2 && (v[d + 1] == 'b' || v[d + 1] == 'B') {
                assert(u[0] == v@[d as int] && u[1] == v@[d + 1]);
                let c: char = v[d];
                let letter: Option<char> = if c == 'k' || c == 'K' {
                    Some('K')
                } else if c == 'm' || c == 'M' {
                    Some('M')
                } else if c == 'g' || c == 'G' {
                    Some('G')
                } else if c == 't' || c == 'T' {
                    Some('T')
                } else {
                    None
                };
                if let Some(l) = letter {
                    let mut e = String::from_str("invalid size ");
                    e.append(quoted(s).as_str());
                    e.append(": units are binary; write ");
                    let digits = text_of(&v, 0, d);
                    assert(digits@ =~= v@.take(d as int));
                    e.append(digits.as_str());
                    e.push(l);
                    assert(e@ =~= "invalid size "@ + debug_text(s@) + ": units are binary; write "@
                        + v@.take(d as int) + seq![l]);
                    return Err(e);
                }
            }
            let mut e = String::from_str("invalid size ");
            e.append(quoted(s).as_str());
            e.append(": unknown unit");
            Err(e)
        },
    }
}

proof fn digits_end_there(s: Seq<char>, i: int, d: int)
    requires
        0 <= i <= d <= s.len(),
        forall|k: int| i <= k < d ==> is_digit(#[trigger] s[k]),
        d < s.len() ==> !is_digit(s[d]),
    ensures
        digits_end(s, i) == d,
    decreases d - i,
{
    if i < d {
        assert(is_digit(s[i]));
        digits_end_there(s, i + 1, d);
    }
}

proof fn decimal_is_the_number(n: nat)
    ensures
        number_of(decimal(n)) == n,
    decreases n,
{
    let t = decimal(n);
    if n >= 10 {
        decimal_is_the_number(n / 10);
        decimal_grows_by_its_last_digit(n / 10, n % 10);
        assert(t.drop_last() =~= decimal(n / 10));
    } else {
        decimal_grows_by_its_last_digit(0, n);
        assert(t.drop_last() =~= Seq::<char>::empty());
        assert(number_of(t.drop_last()) == 0);
    }
}

/// A size is its number times its unit: bytes without a unit or with `B`, and
/// powers of 1024 for `K`, `M`, `G` and `T`, in either case or followed by `iB`.
/// Where that is past the largest number, it is too large. Anything else behind
/// the number is refused.
pub proof fn a_size_counts_its_units(n: nat, unit: Seq<char>)
    requires
        unit.len() > 0 ==> !('0' <= unit[0] <= '9') && '!' <= unit.last() <= '~',
    ensures
        ({
            let t = decimal(n) + unit;
            let scale: Option<nat> = if unit.len() == 0 || unit == seq!['B'] {
                Some(1)
            } else if unit == seq!['K'] || unit == seq!['k'] || unit == seq!['K', 'i', 'B'] {
                Some(1024)
            } else if unit == seq!['M'] || unit == seq!['m'] || unit == seq!['M', 'i', 'B'] {
                Some(1048576)
            } else if unit == seq!['G'] || unit == seq!['g'] || unit == seq!['G', 'i', 'B'] {
                Some(1073741824)
            } else if unit == seq!['T'] || unit == seq!['t'] || unit == seq!['T', 'i', 'B'] {
                Some(1099511627776)
            } else {
                None
            };
            match scale {
                Some(f) if n * f <= u64::MAX => size_in(t) == Ok::<u64, Seq<char>>((n * f) as u64),
                Some(f) if n <= u64::MAX => size_in(t) == Err::<u64, Seq<char>>(
                    "size "@ + debug_text(t) + " is too large"@,
                ),
                _ if n > u64::MAX => size_in(t) == Err::<u64, Seq<char>>(
                    "invalid size "@ + debug_text(t)
                        + ": use a whole number with K, M, G or T"@,
                ),
                _ => {
                    let ends = unit.len() == 2 && (unit[1] == 'b' || unit[1] == 'B');
                    let meant: Option<char> = if ends && (unit[0] == 'k' || unit[0] == 'K') {
                        Some('K')
                    } else if ends && (unit[0] == 'm' || unit[0] == 'M') {
                        Some('M')
                    } else if ends && (unit[0] == 'g' || unit[0] == 'G') {
                        Some('G')
                    } else if ends && (unit[0] == 't' || unit[0] == 'T') {
                        Some('T')
                    } else {
                        None
                    };
                    size_in(t) == Err::<u64, Seq<char>>(
                        match meant {
                            Some(c) => "invalid size "@ + debug_text(t)
                                + ": units are binary; write "@ + decimal(n) + seq![c],
                            None => "invalid size "@ + debug_text(t) + ": unknown unit"@,
                        },
                    )
                },
            }
        }),
{
    let d = decimal(n);
    let t = d + unit;
    unit_sizes();
    decimal_is_digits(n);
    decimal_is_the_number(n);
    assert(t[0] == d[0]);
    assert(t.last() == (if unit.len() > 0 {
        unit.last()
    } else {
        d[d.len() - 1]
    }));
    only_the_ends_are_trimmed(t, ' ');
    assert forall|k: int| 0 <= k < d.len() implies is_digit(#[trigger] t[k]) by {
        assert(t[k] == d[k]);
    }
    if unit.len() > 0 {
        assert(t[d.len() as int] == unit[0]);
    }
    digits_end_there(t, 0, d.len() as int);
    assert(t.take(d.len() as int) =~= d);
    assert(t.skip(d.len() as int) =~= unit);
    if unit.len() == 0 {
        assert(unit =~= Seq::<char>::empty());
    } else {
        assert(unit != Seq::<char>::empty());
    }
    assert(n * 1 == n);
}

/// Without a digit in front there is no size, and white space around a size does
/// not count.
pub proof fn a_size_begins_with_a_digit(s: Seq<char>, c: char)
    requires
        c == ' ' || '\t' <= c <= '\r',
    ensures
        trimmed(s).len() == 0 || !('0' <= trimmed(s)[0] <= '9') ==> size_in(s) == Err::<
            u64,
            Seq<char>,
        >("invalid size "@ + debug_text(s) + ": use a whole number with K, M, G or T"@),
        size_in(s) is Ok ==> size_in(seq![c] + s) == size_in(s) && size_in(s.push(c)) == size_in(s),
{
    only_the_ends_are_trimmed(s, c);
}

proof fn a_zero_in_front_adds_nothing(s: Seq<char>)
    ensures
        number_of(seq!['0'] + s) == number_of(s),
    decreases s.len(),
{
    let z = seq!['0'] + s;
    if s.len() == 0 {
        assert(z.drop_last() =~= Seq::<char>::empty());
        assert(number_of(z.drop_last()) == 0);
    } else {
        assert(z.drop_last() =~= seq!['0'] + s.drop_last());
        a_zero_in_front_adds_nothing(s.drop_last());
    }
}

/// Zeros in front of a size change nothing.
pub proof fn leading_zeros_change_nothing(t: Seq<char>)
    requires
        t.len() > 0,
        '0' <= t[0] <= '9',
        '!' <= t.last() <= '~',
        size_in(t) is Ok,
    ensures
        size_in(seq!['0'] + t) == size_in(t),
{
    let z = seq!['0'] + t;
    let d = digits_end(t, 0);
    only_the_ends_are_trimmed(t, ' ');
    only_the_ends_are_trimmed(z, ' ');
    digits_end_bounds(t, 0);
    assert forall|k: int| 0 <= k < d + 1 implies is_digit(#[trigger] z[k]) by {
        if k > 0 {
            assert(z[k] == t[k - 1]);
        }
    }
    if d < t.len() {
        assert(z[d + 1] == t[d]);
    }
    digits_end_there(z, 0, d + 1);
    assert(z.take(d + 1) =~= seq!['0'] + t.take(d));
    assert(z.skip(d + 1) =~= t.skip(d));
    a_zero_in_front_adds_nothing(t.take(d));
}

/// The age that a text names, or what is wrong with it.
pub open spec fn age_in(s: Seq<char>, reading: Result<Age, Seq<char>>) -> Result<Age, Seq<char>> {
    match reading {
        Err(e) => Err("invalid duration "@ + debug_text(s) + ": "@ + e),
        Ok(a) => if a.negative {
            Err("invalid duration "@ + debug_text(s) + ": must not be negative"@)
        } else {
            Ok(a)
        },
    }
}

/// Takes an age that was read, or says what is wrong with its text `s`.
pub fn accept_age(s: &str, reading: Result<Age, String>) -> (r: Result<Age, String>)
    ensures
        match (reading, r) {
            (Ok(a), Ok(b)) => age_in(s@, Ok(a)) == Ok::<Age, Seq<char>>(b),
            (Ok(a), Err(e)) => age_in(s@, Ok(a)) == Err::<Age, Seq<char>>(e@),
            (Err(x), Ok(_)) => false,
            (Err(x), Err(e)) => age_in(s@, Err(x@)) == Err::<Age, Seq<char>>(e@),
        },
{
    match reading {
        Err(x) => {
            let mut e = String::from_str("invalid duration ");
            e.append(quoted(s).as_str());
            e.append(": ");
            e.append(x.as_str());
            Err(e)
        },
        Ok(a) => {
            if a.negative {
                let mut e = String::from_str("invalid duration ");
                e.append(quoted(s).as_str());
                e.append(": must not be negative");
                Err(e)
            } else {
                Ok(a)
            }
        },
    }
}

/// Reads an age, in words or in ISO 8601. A negative one is refused: it would
/// make everything older than it.
pub fn parse_age(s: &str) -> (r: Result<Age, String>)
    ensures
        match r {
            Ok(a) => age_in(s@, span_reading(s@)) == Ok::<Age, Seq<char>>(a) && !a.negative,
            Err(e) => age_in(s@, span_reading(s@)) == Err::<Age, Seq<char>>(e@),
        },
{
    accept_age(s, read_span(s))
}

/// An age that was read is taken as it is, unless it is negative.
pub proof fn only_a_negative_age_is_refused(s: Seq<char>, reading: Result<Age, Seq<char>>)
    ensures
        match reading {
            Ok(a) if !a.negative => age_in(s, reading) == Ok::<Age, Seq<char>>(a),
            Ok(_) => age_in(s, reading) == Err::<Age, Seq<char>>(
                "invalid duration "@ + debug_text(s) + ": must not be negative"@,
            ),
            Err(e) => age_in(s, reading) == Err::<Age, Seq<char>>(
                "invalid duration "@ + debug_text(s) + ": "@ + e,
            ),
        },
{
}

// ---------------------------------------------------------------------------
// Configuration
// ---------------------------------------------------------------------------

/// What to do where no trash can be reached by a rename.
#[derive(Clone, Copy, PartialEq, Eq, Debug, Structural)]
pub enum Fallback {
    Copy,
    Refuse,
}

/// The configuration.
#[derive(Debug)]
pub struct Config {
    pub fallback: Fallback,
    /// What is larger than this is copied only with consent.
    pub copy_threshold: u64,
    pub source: Vec<u8>,
}

impl Config {
    /// The configuration without a file.
    pub fn default_at(source: Vec<u8>) -> (c: Config)
        ensures
            c.fallback == Fallback::Copy,
            c.copy_threshold == 500 * kib(2),
            c.source@ == source@,
    {
        proof {
            reveal_with_fuel(kib, 3);
        }
        Config { fallback: Fallback::Copy, copy_threshold: 524288000, source }
    }
}

/// A shell for which completions can be printed.
#[derive(Clone, Copy, PartialEq, Eq, Debug, Structural)]
pub enum Shell {
    Bash,
    Zsh,
    Fish,
}

/// What every command works with.
pub struct Cx {
    pub cfg: Config,
    pub mounts: Mounts,
    pub uid: u32,
    pub cwd: Vec<u8>,
    pub home: Vec<u8>,
}

/// One setting: its key, its value if that is a text, and the value as shown.
pub struct Setting {
    pub key: String,
    pub text: Option<String>,
    pub shown: String,
}

/// What a `Setting` holds.
pub open spec fn setting_view(s: Setting) -> (Seq<char>, Option<Seq<char>>, Seq<char>) {
    (
        s.key@,
        match s.text {
            Some(t) => Some(t@),
            None => None,
        },
        s.shown@,
    )
}

/// A setting is read part by part: its key, its value where that is a text, and the value as it
/// is shown.
pub proof fn a_setting_is_read_part_by_part(s: Setting)
    ensures
        setting_view(s).0 == s.key@,
        setting_view(s).1 is Some <==> s.text is Some,
        s.text matches Some(t) ==> setting_view(s).1 == Some(t@),
        setting_view(s).2 == s.shown@,
{
}

/// What a list of settings holds.
pub open spec fn setting_views(v: Seq<Setting>) -> Seq<(Seq<char>, Option<Seq<char>>, Seq<char>)> {
    Seq::new(v.len(), |i: int| setting_view(v[i]))
}

/// The top-level settings that `toml` reads from a text, in the order of their
/// keys, or the text of its error.
pub uninterp spec fn toml_reading(s: Seq<char>) -> Result<
    Seq<(Seq<char>, Option<Seq<char>>, Seq<char>)>,
    Seq<char>,
>;

/// `str::parse` into `toml::Table`, as `toml_reading` names it: each key with
/// its value's text, if it is a string, and with the value as `{:?}` shows it.
#[verifier::external_body]
fn read_toml(s: &str) -> (r: Result<Vec<Setting>, String>)
    ensures
        match r {
            Ok(v) => toml_reading(s@) == Ok::<
                Seq<(Seq<char>, Option<Seq<char>>, Seq<char>)>,
                Seq<char>,
            >(setting_views(v@)),
            Err(e) => toml_reading(s@) == Err::<
                Seq<(Seq<char>, Option<Seq<char>>, Seq<char>)>,
                Seq<char>,
            >(e@),
        },
{
    let table = s.parse::<toml::Table>().map_err(|e| e.to_string())?;
    Ok(
        table.into_iter().map(
            |(key, value)| Setting {
                key,
                text: value.as_str().map(|t| t.to_owned()),
                shown: format!("{value:?}"),
            },
        ).collect(),
    )
}

/// The configuration that settings make, from the first `n` of them: fallback
/// and threshold, or what is wrong.
pub open spec fn config_of(
    source: Seq<u8>,
    v: Seq<(Seq<char>, Option<Seq<char>>, Seq<char>)>,
    n: int,
) -> Result<(Fallback, u64), Seq<char>>
    decreases n,
{
    if n <= 0 {
        Ok((Fallback::Copy, (500 * kib(2)) as u64))
    } else {
        match config_of(source, v, n - 1) {
            Err(e) => Err(e),
            Ok(c) => {
                let (key, text, shown) = v[n - 1];
                if key == "fallback"@ && text == Some("copy"@) {
                    Ok((Fallback::Copy, c.1))
                } else if key == "fallback"@ && text == Some("refuse"@) {
                    Ok((Fallback::Refuse, c.1))
                } else if key == "copy_threshold"@ && text is Some {
                    match size_in(text->0) {
                        Ok(t) => Ok((c.0, t)),
                        Err(e) => Err(escaped(source) + ": copy_threshold: "@ + e),
                    }
                } else if key == "fallback"@ || key == "copy_threshold"@ {
                    Err(escaped(source) + ": invalid value for "@ + key + ": "@ + shown)
                } else {
                    Err(escaped(source) + ": unknown key "@ + key)
                }
            },
        }
    }
}

fn is_text(a: &str, b: &str) -> (r: bool)
    ensures
        r == (a@ == b@),
{
    a.to_owned() == b.to_owned()
}

proof fn config_error_stays(
    source: Seq<u8>,
    v: Seq<(Seq<char>, Option<Seq<char>>, Seq<char>)>,
    i: int,
    n: int,
)
    requires
        0 <= i <= n,
        config_of(source, v, i) is Err,
    ensures
        config_of(source, v, n) == config_of(source, v, i),
    decreases n - i,
{
    if i < n {
        config_error_stays(source, v, i, n - 1);
    }
}

/// Makes a configuration of settings. An unknown key and an unfit value are
/// refused.
pub fn config_from(source: Vec<u8>, v: &Vec<Setting>) -> (r: Result<Config, String>)
    ensures
        match r {
            Ok(c) => config_of(source@, setting_views(v@), v@.len() as int) == Ok::<
                (Fallback, u64),
                Seq<char>,
            >((c.fallback, c.copy_threshold)) && c.source@ == source@,
            Err(e) => config_of(source@, setting_views(v@), v@.len() as int) == Err::<
                (Fallback, u64),
                Seq<char>,
            >(e@),
        },
{
    let ghost all = setting_views(v@);
    let mut cfg = Config::default_at(copy(source.as_slice()));
    let mut i: usize = 0;
    while i < v.len()
        invariant
            i <= v.len(),
            all == setting_views(v@),
            cfg.source@ == source@,
            config_of(source@, all, i as int) == Ok::<(Fallback, u64), Seq<char>>(
                (cfg.fallback, cfg.copy_threshold),
            ),
        decreases v.len() - i,
    {
        let s = &v[i];
        assert(all[i as int] == setting_view(*s));
        let fallback = is_text(s.key.as_str(), "fallback");
        let threshold = is_text(s.key.as_str(), "copy_threshold");
        proof {
            reveal_strlit("fallback");
            reveal_strlit("copy_threshold");
            reveal_strlit("copy");
            reveal_strlit("refuse");
            if config_of(source@, all, i + 1) is Err {
                config_error_stays(source@, all, i + 1, v@.len() as int);
            }
        }
        let mut bad = !fallback && !threshold;
        let unknown = bad;
        if let Some(t) = &s.text {
            if fallback {
                if is_text(t.as_str(), "copy") {
                    cfg.fallback = Fallback::Copy;
                } else if is_text(t.as_str(), "refuse") {
                    cfg.fallback = Fallback::Refuse;
                } else {
                    bad = true;
                }
            } else if threshold {
                match parse_size(t.as_str()) {
                    Ok(n) => {
                        cfg.copy_threshold = n;
                    },
                    Err(x) => {
                        let mut e = escape(source.as_slice());
                        e.append(": copy_threshold: ");
                        e.append(x.as_str());
                        return Err(e);
                    },
                }
            }
        } else {
            bad = true;
        }
        if unknown {
            let mut e = escape(source.as_slice());
            e.append(": unknown key ");
            e.append(s.key.as_str());
            return Err(e);
        }
        if bad {
            let mut e = escape(source.as_slice());
            e.append(": invalid value for ");
            e.append(s.key.as_str());
            e.append(": ");
            e.append(s.shown.as_str());
            return Err(e);
        }
        i = i + 1;
    }
    Ok(cfg)
}

/// A setting that can be taken.
spec fn fit_setting(x: (Seq<char>, Option<Seq<char>>, Seq<char>)) -> bool {
    (x.0 == "fallback"@ && (x.1 == Some("copy"@) || x.1 == Some("refuse"@))) || (x.0
        == "copy_threshold"@ && x.1 is Some && size_in(x.1->0) is Ok)
}

proof fn settings_up_to(
    source: Seq<u8>,
    v: Seq<(Seq<char>, Option<Seq<char>>, Seq<char>)>,
    n: int,
)
    requires
        0 <= n <= v.len(),
    ensures
        config_of(source, v, n) is Ok <==> forall|i: int| 0 <= i < n ==> fit_setting(#[trigger] v[i]),
        config_of(source, v, n) matches Ok(c) ==> {
            &&& (forall|i: int| 0 <= i < n ==> (#[trigger] v[i]).0 != "fallback"@) ==> c.0
                == Fallback::Copy
            &&& (forall|i: int| 0 <= i < n ==> (#[trigger] v[i]).0 != "copy_threshold"@) ==> c.1
                == 524288000
            &&& forall|i: int|
                0 <= i < n && (#[trigger] v[i]).0 == "fallback"@ && (forall|j: int|
                    i < j < n ==> (#[trigger] v[j]).0 != "fallback"@) ==> c.0 == (if v[i].1
                    == Some("refuse"@) {
                    Fallback::Refuse
                } else {
                    Fallback::Copy
                })
            &&& forall|i: int|
                0 <= i < n && (#[trigger] v[i]).0 == "copy_threshold"@ && (forall|j: int|
                    i < j < n ==> (#[trigger] v[j]).0 != "copy_threshold"@) ==> size_in(v[i].1->0)
                    == Ok::<u64, Seq<char>>(c.1)
        },
    decreases n,
{
    reveal_strlit("fallback");
    reveal_strlit("copy_threshold");
    reveal_strlit("copy");
    reveal_strlit("refuse");
    assert("fallback"@ != "copy_threshold"@) by {
        assert("fallback"@.len() != "copy_threshold"@.len());
    }
    assert("copy"@ != "refuse"@) by {
        assert("copy"@.len() != "refuse"@.len());
    }
    unit_sizes();
    if n > 0 {
        settings_up_to(source, v, n - 1);
        let x = v[n - 1];
        if config_of(source, v, n) is Ok {
            let c = config_of(source, v, n)->Ok_0;
            let b = config_of(source, v, n - 1)->Ok_0;
            assert(fit_setting(x));
            assert forall|i: int|
                0 <= i < n && (#[trigger] v[i]).0 == "fallback"@ && (forall|j: int|
                    i < j < n ==> (#[trigger] v[j]).0 != "fallback"@) implies c.0 == (if v[i].1
                == Some("refuse"@) {
                Fallback::Refuse
            } else {
                Fallback::Copy
            }) by {
                if i < n - 1 {
                    assert(v[n - 1].0 != "fallback"@);
                    assert(forall|j: int| i < j < n - 1 ==> (#[trigger] v[j]).0 != "fallback"@);
                }
            }
            assert forall|i: int|
                0 <= i < n && (#[trigger] v[i]).0 == "copy_threshold"@ && (forall|j: int|
                    i < j < n ==> (#[trigger] v[j]).0 != "copy_threshold"@) implies size_in(
                v[i].1->0,
            ) == Ok::<u64, Seq<char>>(c.1) by {
                if i < n - 1 {
                    assert(v[n - 1].0 != "copy_threshold"@);
                    assert(forall|j: int| i < j < n - 1 ==> (#[trigger] v[j]).0 != "copy_threshold"@);
                }
            }
        }
    }
}

/// Settings make a configuration just where each is known and fit, and then each
/// takes effect: `fallback` is `copy` or `refuse`, `copy_threshold` a size. What
/// is not set is `copy` and 500 MiB.
pub proof fn every_setting_takes_effect(
    source: Seq<u8>,
    v: Seq<(Seq<char>, Option<Seq<char>>, Seq<char>)>,
)
    ensures
        config_of(source, v, v.len() as int) is Ok <==> forall|i: int|
            0 <= i < v.len() ==> {
                let x = #[trigger] v[i];
                (x.0 == "fallback"@ && (x.1 == Some("copy"@) || x.1 == Some("refuse"@))) || (x.0
                    == "copy_threshold"@ && x.1 is Some && size_in(x.1->0) is Ok)
            },
        config_of(source, v, v.len() as int) matches Ok(c) ==> {
            &&& (forall|i: int| 0 <= i < v.len() ==> (#[trigger] v[i]).0 != "fallback"@) ==> c.0
                == Fallback::Copy
            &&& (forall|i: int| 0 <= i < v.len() ==> (#[trigger] v[i]).0 != "copy_threshold"@)
                ==> c.1 == 524288000
            &&& forall|i: int|
                0 <= i < v.len() && (#[trigger] v[i]).0 == "fallback"@ && (forall|j: int|
                    i < j < v.len() ==> (#[trigger] v[j]).0 != "fallback"@) ==> c.0 == (if v[i].1
                    == Some("refuse"@) {
                    Fallback::Refuse
                } else {
                    Fallback::Copy
                })
            &&& forall|i: int|
                0 <= i < v.len() && (#[trigger] v[i]).0 == "copy_threshold"@ && (forall|j: int|
                    i < j < v.len() ==> (#[trigger] v[j]).0 != "copy_threshold"@) ==> size_in(
                    v[i].1->0,
                ) == Ok::<u64, Seq<char>>(c.1)
        },
{
    settings_up_to(source, v, v.len() as int);
    assert forall|i: int| 0 <= i < v.len() implies (fit_setting(#[trigger] v[i]) <==> {
        let x = v[i];
        (x.0 == "fallback"@ && (x.1 == Some("copy"@) || x.1 == Some("refuse"@))) || (x.0
            == "copy_threshold"@ && x.1 is Some && size_in(x.1->0) is Ok)
    }) by {
    }
}

/// What came of reading the configuration file.
pub enum ConfigRead {
    Text(String),
    /// There is no such file; the text is the system's error.
    Missing(String),
    Failed(String),
}

/// Where the configuration file is: the one that was named, or
/// `ripper/config.toml` in the configuration directory.
pub fn config_path(explicit: &Option<Vec<u8>>, config_dir: &[u8]) -> (p: Vec<u8>)
    ensures
        p@ == (match explicit {
            Some(x) => x@,
            None => joined(config_dir@, lit("ripper/config.toml")),
        }),
{
    match explicit {
        Some(x) => copy(x.as_slice()),
        None => join(config_dir, of("ripper/config.toml").as_slice()),
    }
}

/// Makes the configuration of what was read of its file. A missing file is in
/// order unless it was named.
pub fn load_config(explicit: bool, source: Vec<u8>, read: ConfigRead) -> (r: Result<Config, String>)
    ensures
        match read {
            ConfigRead::Failed(e) => r matches Err(x) && x@ == escaped(source@) + ": "@ + e@,
            ConfigRead::Missing(e) => if explicit {
                r matches Err(x) && x@ == escaped(source@) + ": "@ + e@
            } else {
                r matches Ok(c) && c.fallback == Fallback::Copy && c.copy_threshold == 500 * kib(2)
                    && c.source@ == source@
            },
            ConfigRead::Text(t) => match toml_reading(t@) {
                Err(e) => r matches Err(x) && x@ == escaped(source@) + ": "@ + e,
                Ok(v) => match config_of(source@, v, v.len() as int) {
                    Ok(got) => r matches Ok(c) && (c.fallback, c.copy_threshold) == got
                        && c.source@ == source@,
                    Err(e) => r matches Err(x) && x@ == e,
                },
            },
        },
{
    match read {
        ConfigRead::Failed(e) => {
            let mut x = escape(source.as_slice());
            x.append(": ");
            x.append(e.as_str());
            Err(x)
        },
        ConfigRead::Missing(e) => {
            if explicit {
                let mut x = escape(source.as_slice());
                x.append(": ");
                x.append(e.as_str());
                Err(x)
            } else {
                Ok(Config::default_at(source))
            }
        },
        ConfigRead::Text(t) => match read_toml(t.as_str()) {
            Err(e) => {
                let mut x = escape(source.as_slice());
                x.append(": ");
                x.append(e.as_str());
                Err(x)
            },
            Ok(v) => config_from(source, &v),
        },
    }
}

// ---------------------------------------------------------------------------
// The environment
// ---------------------------------------------------------------------------

/// A variable's value if it is set, not empty and an absolute path.
pub fn env_abs(v: Option<Vec<u8>>) -> (r: Option<Vec<u8>>)
    ensures
        var_view(r) == (if abs_var(var_view(v)) {
            var_view(v)
        } else {
            None
        }),
{
    match v {
        Some(p) => {
            if is_absolute(p.as_slice()) {
                Some(p)
            } else {
                None
            }
        },
        None => None,
    }
}

/// The home directory, from `$HOME`.
pub fn home_dir(home: Option<Vec<u8>>) -> (r: Result<Vec<u8>, &'static str>)
    ensures
        match r {
            Ok(p) => var_view(home) == Some(p@) && absolute(p@),
            Err(e) => match var_view(home) {
                None => e@ == "HOME is not set"@,
                Some(h) => !absolute(h) && e@ == (if h.len() == 0 {
                    "HOME is not set"@
                } else {
                    "HOME is not an absolute path"@
                }),
            },
        },
{
    match home {
        None => Err("HOME is not set"),
        Some(h) => {
            if h.len() == 0 {
                Err("HOME is not set")
            } else if !is_absolute(h.as_slice()) {
                Err("HOME is not an absolute path")
            } else {
                Ok(h)
            }
        },
    }
}

/// The configuration directory: `$XDG_CONFIG_HOME` if that is set, not empty and
/// absolute, else `.config` in the home directory.
pub fn config_home(xdg: Option<Vec<u8>>, home: &[u8]) -> (r: Vec<u8>)
    ensures
        r@ == (if abs_var(var_view(xdg)) {
            var_view(xdg)->0
        } else {
            joined(home@, lit(".config"))
        }),
{
    match env_abs(xdg) {
        Some(p) => p,
        None => join(home, of(".config").as_slice()),
    }
}

/// The current directory, or what stands in for it where it cannot be told:
/// `$PWD` if that is absolute, else the root. The second value says whether it
/// stands in.
pub fn cwd_or(cwd: Option<Vec<u8>>, pwd: Option<Vec<u8>>) -> (r: (Vec<u8>, bool))
    ensures
        match var_view(cwd) {
            Some(c) => r.0@ == c && !r.1,
            None => r.1 && r.0@ == (if abs_var(var_view(pwd)) {
                var_view(pwd)->0
            } else {
                lit("/")
            }),
        },
{
    match cwd {
        Some(c) => (c, false),
        None => match env_abs(pwd) {
            Some(p) => (p, true),
            None => (of("/"), true),
        },
    }
}

// ---------------------------------------------------------------------------
// Questions
// ---------------------------------------------------------------------------

/// What came of a question.
#[derive(Clone, Copy, PartialEq, Eq, Debug, Structural)]
pub enum Answer {
    Yes,
    No,
    /// There is no terminal to ask on.
    NoTerminal,
    Failed,
}

/// The answers that mean yes.
pub open spec fn says_yes(line: Seq<char>) -> bool {
    let t = trimmed(line);
    t == "y"@ || t == "Y"@ || t == "yes"@ || t == "Yes"@
}

/// What came of a question: `line` is what was typed, `None` where there is no
/// terminal. Only a clear yes is one.
pub fn confirm(line: Option<&str>) -> (a: Answer)
    ensures
        a == (match line {
            None => Answer::NoTerminal,
            Some(l) => if says_yes(l@) {
                Answer::Yes
            } else {
                Answer::No
            },
        }),
{
    match line {
        None => Answer::NoTerminal,
        Some(l) => {
            let t = trim(l);
            if is_text(t.as_str(), "y") || is_text(t.as_str(), "Y") || is_text(t.as_str(), "yes")
                || is_text(t.as_str(), "Yes") {
                Answer::Yes
            } else {
                Answer::No
            }
        },
    }
}

/// Only `y` and `yes`, as they are or with a capital, mean yes; white space
/// around them does not count.
pub proof fn only_a_clear_yes_counts(line: Seq<char>, c: char)
    requires
        c == ' ' || '\t' <= c <= '\r',
    ensures
        says_yes(seq!['y']) && says_yes(seq!['Y']),
        says_yes(seq!['y', 'e', 's']) && says_yes(seq!['Y', 'e', 's']),
        says_yes(seq![c] + line) == says_yes(line),
        says_yes(line.push(c)) == says_yes(line),
        says_yes(line) ==> trimmed(line) == seq!['y'] || trimmed(line) == seq!['Y'] || trimmed(line)
            == seq!['y', 'e', 's'] || trimmed(line) == seq!['Y', 'e', 's'],
{
    reveal_strlit("y");
    reveal_strlit("Y");
    reveal_strlit("yes");
    reveal_strlit("Yes");
    assert("y"@ =~= seq!['y']);
    assert("Y"@ =~= seq!['Y']);
    assert("yes"@ =~= seq!['y', 'e', 's']);
    assert("Yes"@ =~= seq!['Y', 'e', 's']);
    only_the_ends_are_trimmed(line, c);
    only_the_ends_are_trimmed(seq!['y'], c);
    only_the_ends_are_trimmed(seq!['Y'], c);
    only_the_ends_are_trimmed(seq!['y', 'e', 's'], c);
    only_the_ends_are_trimmed(seq!['Y', 'e', 's'], c);
}

/// What follows from a question.
#[derive(Clone, Copy, PartialEq, Eq, Debug, Structural)]
pub enum Consent {
    Go,
    /// A clear `no`, or none: do nothing, and succeed.
    Stop,
    /// Nobody could answer: do nothing, and fail.
    Fail,
}

/// What follows from a question that is asked only where it must be. Without an
/// answer nothing irreversible happens.
pub fn consent(asks: bool, a: Answer) -> (c: Consent)
    ensures
        c is Go <==> !asks || a is Yes,
        c is Stop <==> asks && a is No,
{
    if !asks {
        return Consent::Go;
    }
    match a {
        Answer::Yes => Consent::Go,
        Answer::No => Consent::Stop,
        Answer::NoTerminal | Answer::Failed => Consent::Fail,
    }
}

/// What is said where a question cannot be asked.
pub fn no_terminal(question: &str, skip_flag: &str) -> (s: String)
    ensures
        s@ == question@ + " (no terminal to ask on; "@ + skip_flag@ + " skips this question)"@,
{
    let mut s = question.to_owned();
    s.append(" (no terminal to ask on; ");
    s.append(skip_flag);
    s.append(" skips this question)");
    s
}

// ---------------------------------------------------------------------------
// Dispatch
// ---------------------------------------------------------------------------

/// `--completions` prints the script and succeeds.
pub fn completions_exit_code() -> (c: u8)
    ensures
        c == 0,
{
    0
}

/// What was asked for, as far as it decides how to begin.
#[derive(Clone, Copy, PartialEq, Eq, Debug, Structural)]
pub struct Asked {
    pub completions: bool,
    pub command: bool,
    pub operands: bool,
    pub force: bool,
}

/// Where the program stands.
#[derive(Clone, Copy, PartialEq, Eq, Debug, Structural)]
pub enum Phase {
    /// Print the completion script.
    Completions,
    /// Say that an operand is missing.
    Usage,
    /// Raise the limit on open files, and find the home directory.
    Home,
    /// Read the configuration.
    Config,
    /// Read the mount table.
    Context,
    /// Run the command, or trash the operands.
    Run,
    /// Say what is wrong, and end with this code.
    Complain(u8),
    Exit(u8),
}

/// What came of a phase.
#[derive(Clone, Copy, PartialEq, Eq, Debug, Structural)]
pub enum Outcome {
    Good,
    /// The command ran, but not everything was done.
    Partial,
    Error,
}

/// The first phase.
pub open spec fn phase_begun(a: Asked) -> Phase {
    if a.completions {
        Phase::Completions
    } else if !a.command && !a.operands {
        if a.force {
            Phase::Exit(0)
        } else {
            Phase::Usage
        }
    } else {
        Phase::Home
    }
}

/// The next phase.
pub open spec fn phase_after(at: Phase, o: Outcome) -> Phase {
    match at {
        Phase::Completions => Phase::Exit(0),
        Phase::Usage => Phase::Exit(2),
        Phase::Home => if o is Good {
            Phase::Config
        } else {
            Phase::Complain(2)
        },
        Phase::Config => if o is Good {
            Phase::Context
        } else {
            Phase::Complain(2)
        },
        Phase::Context => if o is Good {
            Phase::Run
        } else {
            Phase::Complain(2)
        },
        Phase::Run => match o {
            Outcome::Good => Phase::Exit(0),
            Outcome::Partial => Phase::Exit(1),
            Outcome::Error => Phase::Complain(1),
        },
        Phase::Complain(c) => Phase::Exit(c),
        Phase::Exit(c) => Phase::Exit(c),
    }
}

/// How to begin.
pub fn begin(a: Asked) -> (p: Phase)
    ensures
        p == phase_begun(a),
{
    if a.completions {
        Phase::Completions
    } else if !a.command && !a.operands {
        if a.force {
            Phase::Exit(0)
        } else {
            Phase::Usage
        }
    } else {
        Phase::Home
    }
}

/// How to go on.
pub fn dispatch(at: Phase, o: Outcome) -> (p: Phase)
    ensures
        p == phase_after(at, o),
{
    match at {
        Phase::Completions => Phase::Exit(completions_exit_code()),
        Phase::Usage => Phase::Exit(2),
        Phase::Home => match o {
            Outcome::Good => Phase::Config,
            _ => Phase::Complain(2),
        },
        Phase::Config => match o {
            Outcome::Good => Phase::Context,
            _ => Phase::Complain(2),
        },
        Phase::Context => match o {
            Outcome::Good => Phase::Run,
            _ => Phase::Complain(2),
        },
        Phase::Run => match o {
            Outcome::Good => Phase::Exit(0),
            Outcome::Partial => Phase::Exit(1),
            Outcome::Error => Phase::Complain(1),
        },
        Phase::Complain(c) => Phase::Exit(c),
        Phase::Exit(c) => Phase::Exit(c),
    }
}

/// The program after a course of outcomes, and whether the command was run.
pub open spec fn phase_run(a: Asked, os: Seq<Outcome>) -> (Phase, bool)
    decreases os.len(),
{
    if os.len() == 0 {
        (phase_begun(a), false)
    } else {
        let (at, ran) = phase_run(a, os.drop_last());
        (phase_after(at, os.last()), ran || at is Run)
    }
}

/// The exit code 2 means that nothing was done: no command ever ran. A command
/// that ran ends with 0 or 1.
pub proof fn code_two_means_nothing_was_done(a: Asked, os: Seq<Outcome>)
    ensures
        ({
            let (at, ran) = phase_run(a, os);
            &&& ran ==> at == Phase::Exit(0) || at == Phase::Exit(1) || at == Phase::Complain(1)
            &&& at == Phase::Exit(2) ==> !ran
        }),
    decreases os.len(),
{
    if os.len() > 0 {
        code_two_means_nothing_was_done(a, os.drop_last());
    }
}

proof fn phase_goes_on(a: Asked, os: Seq<Outcome>, o: Outcome)
    ensures
        phase_run(a, os.push(o)).0 == phase_after(phase_run(a, os).0, o),
{
    assert(os.push(o).drop_last() =~= os);
}

/// A command, or operands, are run once the home directory, the configuration and
/// the mount table were had, and the exit code is then that of the run: 0 where
/// all was done, 1 where not. What fails before the run ends with 2, and so does a
/// missing operand, unless `-f` is given. Completions end with 0.
pub proof fn the_exit_code_is_that_of_the_run(a: Asked, o: Outcome)
    ensures
        a.completions ==> phase_run(a, seq![]).0 == Phase::Completions && phase_run(a, seq![o]).0
            == Phase::Exit(0),
        !a.completions && !a.command && !a.operands && a.force ==> phase_run(a, seq![]).0
            == Phase::Exit(0),
        !a.completions && !a.command && !a.operands && !a.force ==> phase_run(a, seq![]).0
            == Phase::Usage && phase_run(a, seq![o]).0 == Phase::Exit(2),
        !a.completions && (a.command || a.operands) ==> {
            let g = Outcome::Good;
            &&& phase_run(a, seq![]).0 == Phase::Home
            &&& phase_run(a, seq![g]).0 == Phase::Config
            &&& phase_run(a, seq![g, g]).0 == Phase::Context
            &&& phase_run(a, seq![g, g, g]).0 == Phase::Run
            &&& phase_run(a, seq![g, g, g, g]).0 == Phase::Exit(0)
            &&& phase_run(a, seq![g, g, g, Outcome::Partial]).0 == Phase::Exit(1)
            &&& phase_run(a, seq![g, g, g, Outcome::Error]).0 == Phase::Complain(1)
            &&& phase_run(a, seq![g, g, g, Outcome::Error, o]).0 == Phase::Exit(1)
            &&& o != g ==> phase_run(a, seq![o]).0 == Phase::Complain(2) && phase_run(
                a,
                seq![o, g],
            ).0 == Phase::Exit(2)
            &&& o != g ==> phase_run(a, seq![g, o]).0 == Phase::Complain(2) && phase_run(
                a,
                seq![g, o, g],
            ).0 == Phase::Exit(2)
            &&& o != g ==> phase_run(a, seq![g, g, o]).0 == Phase::Complain(2) && phase_run(
                a,
                seq![g, g, o, g],
            ).0 == Phase::Exit(2)
        },
{
    let g = Outcome::Good;
    let s0 = Seq::<Outcome>::empty();
    let s1 = s0.push(g);
    let s2 = s1.push(g);
    let s3 = s2.push(g);
    assert(seq![] =~= s0);
    assert(seq![o] =~= s0.push(o));
    assert(seq![g] =~= s1);
    assert(seq![g, g] =~= s2);
    assert(seq![g, g, g] =~= s3);
    assert(seq![g, g, g, g] =~= s3.push(g));
    assert(seq![g, g, g, Outcome::Partial] =~= s3.push(Outcome::Partial));
    assert(seq![g, g, g, Outcome::Error] =~= s3.push(Outcome::Error));
    assert(seq![g, g, g, Outcome::Error, o] =~= s3.push(Outcome::Error).push(o));
    assert(seq![o, g] =~= s0.push(o).push(g));
    assert(seq![g, o] =~= s1.push(o));
    assert(seq![g, o, g] =~= s1.push(o).push(g));
    assert(seq![g, g, o] =~= s2.push(o));
    assert(seq![g, g, o, g] =~= s2.push(o).push(g));
    phase_goes_on(a, s0, g);
    phase_goes_on(a, s1, g);
    phase_goes_on(a, s2, g);
    phase_goes_on(a, s3, g);
    phase_goes_on(a, s3, Outcome::Partial);
    phase_goes_on(a, s3, Outcome::Error);
    phase_goes_on(a, s3.push(Outcome::Error), o);
    phase_goes_on(a, s0, o);
    phase_goes_on(a, s1, o);
    phase_goes_on(a, s2, o);
    phase_goes_on(a, s0.push(o), g);
    phase_goes_on(a, s1.push(o), g);
    phase_goes_on(a, s2.push(o), g);
}

/// A complaint ends the run with its own code, whatever comes of it, and a run that has ended
/// stays so.
pub proof fn an_ended_run_keeps_its_code(a: Asked, os: Seq<Outcome>, o: Outcome)
    ensures
        phase_run(a, os).0 matches Phase::Complain(c) ==> phase_run(a, os.push(o)).0
            == Phase::Exit(c),
        phase_run(a, os).0 matches Phase::Exit(c) ==> phase_run(a, os.push(o)).0 == Phase::Exit(c),
{
    phase_goes_on(a, os, o);
}

} // verus!
