//! Choosing items with `fzf`.
use vstd::prelude::*;
use vstd::string::*;
use vstd::utf8::*;

use crate::bytes::{append, join_with, of, split, split_on, views};
use crate::dates::{stamp, stamp_is_visible, write_spaced, DateTime};
use crate::load::{dates_valid, Contents, Dated, ItemView, Which};
use crate::mounts::{all_digits, digits_value, num, number_in};
use crate::paths::join_then_split;
use crate::restore::{are_items, item_at, shown_as, shown_path, Deed};
use crate::text::{
    ascii_bytes_are_chars, control, decimal, decimal_is_digits, digit, escape, escaped,
    escaped_holds_no_control, number,
};

verus! {

/// The arguments for `fzf`, before the prompt: several items can be chosen,
/// records end in NUL, and the number before the first tab is not shown.
pub open spec fn fzf_fixed() -> Seq<Seq<char>> {
    seq![
        "--multi"@,
        "--read0"@,
        "--print0"@,
        "--delimiter=\t"@,
        "--with-nth=2.."@,
        "--tiebreak=index"@,
    ]
}

/// The prompt that `fzf` shows.
pub open spec fn fzf_prompt(d: Deed) -> Seq<char> {
    match d {
        Deed::Restore => "--prompt=restore> "@,
        Deed::Purge => "--prompt=purge> "@,
    }
}

/// The finder takes and gives records that end in a null byte, shows them without their numbers
/// in the order they are in, and prompts for the deed at hand.
pub proof fn the_finder_is_told_what_to_do(d: Deed)
    ensures
        fzf_fixed() == seq![
            "--multi"@,
            "--read0"@,
            "--print0"@,
            "--delimiter=\t"@,
            "--with-nth=2.."@,
            "--tiebreak=index"@,
        ],
        d is Restore ==> fzf_prompt(d) == "--prompt=restore> "@,
        d is Purge ==> fzf_prompt(d) == "--prompt=purge> "@,
{
}

/// The arguments for `fzf`.
pub fn fzf_args(d: Deed) -> (v: Vec<&'static str>)
    ensures
        v@.len() == 7,
        forall|i: int| 0 <= i < 6 ==> (#[trigger] v@[i])@ == fzf_fixed()[i],
        v@[6]@ == fzf_prompt(d),
{
    let mut v: Vec<&'static str> = Vec::new();
    v.push("--multi");
    v.push("--read0");
    v.push("--print0");
    v.push("--delimiter=\t");
    v.push("--with-nth=2..");
    v.push("--tiebreak=index");
    match d {
        Deed::Restore => v.push("--prompt=restore> "),
        Deed::Purge => v.push("--prompt=purge> "),
    }
    v
}

/// The record for the `k`th item: its number, its date and its path, for the
/// terminal.
pub open spec fn record(k: nat, date: DateTime, path: Seq<u8>) -> Seq<u8> {
    encode_utf8(decimal(k)).push(0x09) + (encode_utf8(stamp(' ', date)).push(0x09) + encode_utf8(
        escaped(path),
    ))
}

/// The record for the `k`th of the entries `p`.
pub open spec fn nth_record(items: Seq<ItemView>, p: Seq<Dated>, cwd: Seq<u8>, k: int) -> Seq<u8> {
    record(k as nat, p[k].date, shown_as(item_at(items, p[k]).original, cwd))
}

/// What `fzf` reads for the first `n` entries.
pub open spec fn fzf_text(items: Seq<ItemView>, p: Seq<Dated>, cwd: Seq<u8>, n: int) -> Seq<u8>
    decreases n,
{
    if n <= 0 {
        Seq::empty()
    } else {
        fzf_text(items, p, cwd, n - 1) + nth_record(items, p, cwd, n - 1).push(0)
    }
}

fn write_record(k: u64, date: &DateTime, path: &[u8]) -> (r: Vec<u8>)
    requires
        date.valid(),
    ensures
        r@ == record(k as nat, *date, path@),
{
    let mut r = of(number(k).as_str());
    r.push(0x09);
    let mut rest = of(write_spaced(date).as_str());
    rest.push(0x09);
    append(&mut rest, of(escape(path).as_str()).as_slice());
    append(&mut r, rest.as_slice());
    r
}

/// What `fzf` reads: a record for each entry.
pub fn fzf_input(c: &Contents, cwd: &[u8], p: &Vec<Dated>) -> (out: Vec<u8>)
    requires
        dates_valid(c@.items),
        are_items(c@.items, p@),
    ensures
        out@ == fzf_text(c@.items, p@, cwd@, p@.len() as int),
{
    let ghost items = c@.items;
    let mut out: Vec<u8> = Vec::new();
    let mut i: usize = 0;
    while i < p.len()
        invariant
            i <= p.len(),
            items == c@.items,
            dates_valid(items),
            are_items(items, p@),
            out@ == fzf_text(items, p@, cwd@, i as int),
        decreases p.len() - i,
    {
        let d = p[i];
        if let Which::Item(k) = d.which {
            let it = &c.items[k];
            assert(items[k as int] == it@);
            let mut r = write_record(
                i as u64,
                &d.date,
                shown_path(it.original.as_slice(), cwd).as_slice(),
            );
            r.push(0);
            append(&mut out, r.as_slice());
        }
        i = i + 1;
    }
    out
}

/// Where the first tab is, from the `i`th byte on; the end, if there is none.
pub open spec fn tab_at(s: Seq<u8>, i: int) -> int
    decreases s.len() - i,
{
    if 0 <= i < s.len() && s[i] != 0x09 {
        tab_at(s, i + 1)
    } else {
        i
    }
}

/// The number with which a record begins, if it is the number of one of `n`
/// entries.
pub open spec fn pick_in(s: Seq<u8>, n: nat) -> Option<usize> {
    match number_in(s.take(tab_at(s, 0)), u64::MAX as nat) {
        Some(v) if v < n => Some(v as usize),
        _ => None,
    }
}

/// The numbers in the first `m` records.
pub open spec fn picks_in(r: Seq<Seq<u8>>, n: nat, m: int) -> Seq<usize>
    decreases m,
{
    if m <= 0 {
        Seq::empty()
    } else {
        match pick_in(r[m - 1], n) {
            Some(v) => picks_in(r, n, m - 1).push(v),
            None => picks_in(r, n, m - 1),
        }
    }
}

fn read_pick(s: &[u8], n: usize) -> (r: Option<usize>)
    ensures
        r == pick_in(s@, n as nat),
{
    let mut i: usize = 0;
    let mut head: Vec<u8> = Vec::new();
    while i < s.len() && s[i] != 0x09
        invariant
            i <= s.len(),
            tab_at(s@, 0) == tab_at(s@, i as int),
            head@ =~= s@.take(i as int),
        decreases s.len() - i,
    {
        head.push(s[i]);
        i = i + 1;
    }
    match num(head.as_slice()) {
        Some(v) => {
            if v < n as u64 {
                Some(v as usize)
            } else {
                None
            }
        },
        None => None,
    }
}

/// The entries that were chosen, from what `fzf` wrote.
pub fn fzf_picks(out: &[u8], n: usize) -> (v: Vec<usize>)
    ensures
        v@ == picks_in(split_on(out@, 0), n as nat, split_on(out@, 0).len() as int),
{
    let pieces = split(out, 0);
    let ghost all = split_on(out@, 0);
    let mut v: Vec<usize> = Vec::new();
    let mut i: usize = 0;
    while i < pieces.len()
        invariant
            i <= pieces.len(),
            all == split_on(out@, 0),
            views(pieces@) == all,
            v@ == picks_in(all, n as nat, i as int),
        decreases pieces.len() - i,
    {
        assert(all[i as int] == pieces@[i as int]@);
        if let Some(k) = read_pick(pieces[i].as_slice(), n) {
            v.push(k);
        }
        i = i + 1;
    }
    v
}

/// The entries that were chosen.
pub fn chosen(p: &Vec<Dated>, picks: &Vec<usize>) -> (v: Vec<Which>)
    requires
        forall|k: int| 0 <= k < picks@.len() ==> #[trigger] picks@[k] < p@.len(),
    ensures
        v@.len() == picks@.len(),
        forall|k: int| 0 <= k < picks@.len() ==> #[trigger] v@[k] == p@[picks@[k] as int].which,
{
    let mut v: Vec<Which> = Vec::new();
    let mut i: usize = 0;
    while i < picks.len()
        invariant
            i <= picks.len(),
            forall|k: int| 0 <= k < picks@.len() ==> #[trigger] picks@[k] < p@.len(),
            v@.len() == i,
            forall|k: int| 0 <= k < i ==> #[trigger] v@[k] == p@[picks@[k] as int].which,
        decreases picks.len() - i,
    {
        let n: usize = picks[i];
        v.push(p[n].which);
        i = i + 1;
    }
    v
}

/// How `fzf` ended.
#[derive(Clone, Copy, PartialEq, Eq, Debug, Structural)]
pub enum Picked {
    Chosen,
    /// Nothing matched, or the choice was cancelled.
    Nothing,
    Failed,
}

/// What the exit status of `fzf` means; `None`: a signal ended it.
pub fn fzf_end(status: Option<i32>) -> (p: Picked)
    ensures
        p == (if status == Some(0i32) {
            Picked::Chosen
        } else if status == Some(1i32) || status == Some(130i32) {
            Picked::Nothing
        } else {
            Picked::Failed
        }),
{
    match status {
        Some(n) => {
            if n == 0 {
                Picked::Chosen
            } else if n == 1 || n == 130 {
                Picked::Nothing
            } else {
                Picked::Failed
            }
        },
        None => Picked::Failed,
    }
}

/// Why nothing can be picked.
pub open spec fn no_pick(d: Deed, entries: nat, tty: bool) -> Option<Seq<char>> {
    if entries == 0 {
        Some(
            match d {
                Deed::Restore => "nothing to restore"@,
                Deed::Purge => "nothing to delete"@,
            },
        )
    } else if !tty {
        Some("no terminal to choose items on; name each by its PATH"@)
    } else {
        None
    }
}

/// Tells why nothing can be picked, if that is so.
pub fn before_pick(d: Deed, entries: usize, tty: bool) -> (r: Option<&'static str>)
    ensures
        match r {
            Some(s) => no_pick(d, entries as nat, tty) == Some(s@),
            None => no_pick(d, entries as nat, tty) is None,
        },
{
    if entries == 0 {
        match d {
            Deed::Restore => Some("nothing to restore"),
            Deed::Purge => Some("nothing to delete"),
        }
    } else if !tty {
        Some("no terminal to choose items on; name each by its PATH")
    } else {
        None
    }
}

/// Something can be picked just where there is something and a terminal to pick
/// it on.
pub proof fn a_pick_needs_entries_and_a_terminal(d: Deed, entries: nat, tty: bool)
    ensures
        no_pick(d, entries, tty) is None <==> entries > 0 && tty,
        entries == 0 && d is Restore ==> no_pick(d, entries, tty) == Some("nothing to restore"@),
        entries == 0 && d is Purge ==> no_pick(d, entries, tty) == Some("nothing to delete"@),
        entries > 0 && !tty ==> no_pick(d, entries, tty) == Some(
            "no terminal to choose items on; name each by its PATH"@,
        ),
{
}

// ---------------------------------------------------------------------------
// What is chosen comes back
// ---------------------------------------------------------------------------

/// What `fzf` writes when the first `n` of the records `idx` are chosen.
pub open spec fn chosen_text(
    items: Seq<ItemView>,
    p: Seq<Dated>,
    cwd: Seq<u8>,
    idx: Seq<usize>,
    n: int,
) -> Seq<u8>
    decreases n,
{
    if n <= 0 {
        Seq::empty()
    } else {
        chosen_text(items, p, cwd, idx, n - 1) + nth_record(
            items,
            p,
            cwd,
            idx[n - 1] as int,
        ).push(0)
    }
}

proof fn decimal_reads_back(n: nat)
    ensures
        ({
            let b = encode_utf8(decimal(n));
            b.len() > 0 && all_digits(b) && digits_value(b) == n && !b.contains(0) && !b.contains(
                0x09,
            )
        }),
    decreases n,
{
    let s = decimal(n);
    decimal_is_digits(n);
    assert(is_ascii_chars(s));
    is_ascii_chars_encode_utf8(s);
    let b = encode_utf8(s);
    assert(all_digits(b)) by {
        assert forall|i: int| 0 <= i < b.len() implies 0x30 <= #[trigger] b[i] <= 0x39 by {
            assert('0' <= s[i] <= '9');
        }
    }
    if n >= 10 {
        decimal_reads_back(n / 10);
        let t = decimal(n / 10);
        decimal_is_digits(n / 10);
        assert(is_ascii_chars(t));
        is_ascii_chars_encode_utf8(t);
        assert(b.drop_last() =~= encode_utf8(t)) by {
            assert forall|i: int| 0 <= i < t.len() implies b[i] == encode_utf8(t)[i] by {
                assert(s[i] == t[i]);
            }
        }
        assert(s.last() == digit((n % 10) as int));
        assert(b.last() == s[s.len() - 1] as u8);
        assert(b.last() - 0x30 == n % 10);
    } else {
        assert(s[0] == digit(n as int));
        assert(b[0] == s[0] as u8);
        assert(b.drop_last() =~= Seq::empty());
        assert(digits_value(b.drop_last()) == 0);
    }
}

proof fn tab_is_first(x: Seq<u8>, y: Seq<u8>, i: int)
    requires
        !x.contains(0x09),
        0 <= i <= x.len(),
    ensures
        tab_at(x.push(0x09) + y, i) == x.len(),
    decreases x.len() - i,
{
    let s = x.push(0x09) + y;
    if i < x.len() {
        assert(s[i] == x[i]);
        tab_is_first(x, y, i + 1);
    } else {
        assert(s[i] == 0x09);
    }
}

proof fn record_reads_back(k: nat, date: DateTime, path: Seq<u8>, n: nat)
    requires
        date.valid(),
        k < n <= u64::MAX,
        n <= usize::MAX,
    ensures
        pick_in(record(k, date, path), n) == Some(k as usize),
        !record(k, date, path).contains(0),
{
    decimal_reads_back(k);
    let x = encode_utf8(decimal(k));
    let d = encode_utf8(stamp(' ', date));
    let e = encode_utf8(escaped(path));
    let y = d.push(0x09) + e;
    let s = x.push(0x09) + y;
    tab_is_first(x, y, 0);
    assert(s.take(x.len() as int) =~= x);
    if d.contains(0) {
        ascii_bytes_are_chars(stamp(' ', date), 0);
        let i = choose|i: int|
            0 <= i < stamp(' ', date).len() && stamp(' ', date)[i] == 0u8 as char;
        stamp_is_visible(' ', date);
        assert(' ' <= stamp(' ', date)[i]);
    }
    if e.contains(0) {
        ascii_bytes_are_chars(escaped(path), 0);
        escaped_holds_no_control(path);
        let i = choose|i: int| 0 <= i < escaped(path).len() && escaped(path)[i] == 0u8 as char;
        assert(control(escaped(path)[i]));
    }
    assert forall|i: int| 0 <= i < s.len() implies s[i] != 0 by {
        if i < x.len() {
            assert(s[i] == x[i]);
        } else if i == x.len() {
        } else {
            let j = i - x.len() - 1;
            assert(s[i] == y[j]);
            if j < d.len() {
                assert(y[j] == d[j]);
            } else if j > d.len() {
                assert(y[j] == e[j - d.len() - 1]);
            }
        }
    }
}

proof fn text_joins(items: Seq<ItemView>, p: Seq<Dated>, cwd: Seq<u8>, idx: Seq<usize>, n: int)
    requires
        0 <= n <= idx.len(),
    ensures
        chosen_text(items, p, cwd, idx, n) == join_with(
            Seq::new(n as nat, |k: int| nth_record(items, p, cwd, idx[k] as int)).push(
                Seq::empty(),
            ),
            0,
        ),
    decreases n,
{
    let r = Seq::new(n as nat, |k: int| nth_record(items, p, cwd, idx[k] as int));
    let q = r.push(Seq::<u8>::empty());
    assert(q.drop_last() =~= r);
    if n > 0 {
        text_joins(items, p, cwd, idx, n - 1);
        let before = Seq::new((n - 1) as nat, |k: int| nth_record(items, p, cwd, idx[k] as int));
        assert(r.drop_last() =~= before);
        let w = before.push(Seq::<u8>::empty());
        assert(w.drop_last() =~= before);
        if n == 1 {
            assert(join_with(r, 0) == r[0]);
            assert(join_with(w, 0) =~= Seq::empty());
        } else {
            assert(join_with(w, 0) =~= join_with(before, 0).push(0));
            assert(join_with(r, 0) == join_with(before, 0).push(0) + r[n - 1]);
        }
        assert(join_with(q, 0) =~= join_with(r, 0).push(0));
        assert(chosen_text(items, p, cwd, idx, n) =~= join_with(q, 0));
    }
}

proof fn picks_read_back(r: Seq<Seq<u8>>, n: nat, idx: Seq<usize>, m: int)
    requires
        0 <= m <= idx.len() <= r.len(),
        forall|k: int| 0 <= k < idx.len() ==> pick_in(#[trigger] r[k], n) == Some(idx[k]),
    ensures
        picks_in(r, n, m) == idx.take(m),
    decreases m,
{
    if m > 0 {
        picks_read_back(r, n, idx, m - 1);
        assert(r[m - 1] == r[m - 1]);
        assert(idx.take(m) =~= idx.take(m - 1).push(idx[m - 1]));
    } else {
        assert(idx.take(0) =~= Seq::empty());
    }
}

/// Whatever a path holds: the records that `fzf` hands back are read as just
/// the entries they were written for.
pub proof fn picks_come_back(items: Seq<ItemView>, p: Seq<Dated>, cwd: Seq<u8>, idx: Seq<usize>)
    requires
        dates_valid(items),
        are_items(items, p),
        p.len() <= u64::MAX,
        p.len() <= usize::MAX,
        forall|k: int| 0 <= k < idx.len() ==> #[trigger] idx[k] < p.len(),
    ensures
        ({
            let r = split_on(chosen_text(items, p, cwd, idx, idx.len() as int), 0);
            picks_in(r, p.len(), r.len() as int) == idx
        }),
{
    let n = idx.len();
    let r = Seq::new(n, |k: int| nth_record(items, p, cwd, idx[k] as int));
    let q = r.push(Seq::<u8>::empty());
    text_joins(items, p, cwd, idx, n as int);
    assert forall|k: int| 0 <= k < n implies pick_in(#[trigger] r[k], p.len()) == Some(idx[k])
        && !r[k].contains(0) by {
        let i = idx[k] as int;
        assert(p[i].date.valid());
        record_reads_back(
            i as nat,
            p[i].date,
            shown_as(item_at(items, p[i]).original, cwd),
            p.len(),
        );
    }
    assert forall|k: int| 0 <= k < q.len() implies !(#[trigger] q[k]).contains(0) by {
        if k < n {
            assert(q[k] == r[k]);
        }
    }
    join_then_split(q, 0);
    assert forall|k: int| 0 <= k < idx.len() implies pick_in(#[trigger] q[k], p.len()) == Some(
        idx[k],
    ) by {
        assert(q[k] == r[k]);
    }
    picks_read_back(q, p.len(), idx, n as int);
    assert(idx.take(n as int) =~= idx);
    assert(pick_in(q[n as int], p.len()) is None) by {
        let e = Seq::<u8>::empty();
        assert(q[n as int] == e);
        assert(e.take(tab_at(e, 0)).len() == 0);
    }
}

proof fn all_are_offered(items: Seq<ItemView>, p: Seq<Dated>, cwd: Seq<u8>, n: int)
    requires
        0 <= n <= p.len() <= usize::MAX,
    ensures
        fzf_text(items, p, cwd, n) == chosen_text(
            items,
            p,
            cwd,
            Seq::new(p.len(), |k: int| k as usize),
            n,
        ),
    decreases n,
{
    if n > 0 {
        all_are_offered(items, p, cwd, n - 1);
    }
}

/// `fzf` is offered every entry, each in a record of its own and in their order:
/// its number, its date and its path as it is shown, with tabs between them.
pub proof fn every_entry_is_offered(items: Seq<ItemView>, p: Seq<Dated>, cwd: Seq<u8>)
    requires
        dates_valid(items),
        are_items(items, p),
        p.len() <= u64::MAX,
        p.len() <= usize::MAX,
    ensures
        ({
            let r = split_on(fzf_text(items, p, cwd, p.len() as int), 0);
            &&& r.len() == p.len() + 1
            &&& r.last().len() == 0
            &&& forall|k: int|
                0 <= k < p.len() ==> (p[k].which matches Which::Item(i) && #[trigger] r[k]
                    == encode_utf8(decimal(k as nat)) + seq![0x09u8] + encode_utf8(
                    stamp(' ', items[i as int].date),
                ) + seq![0x09u8] + encode_utf8(escaped(shown_as(items[i as int].original, cwd))))
        }),
{
    let n = p.len();
    let idx = Seq::new(n, |k: int| k as usize);
    let r = Seq::new(n, |k: int| nth_record(items, p, cwd, idx[k] as int));
    let q = r.push(Seq::<u8>::empty());
    all_are_offered(items, p, cwd, n as int);
    text_joins(items, p, cwd, idx, n as int);
    assert forall|k: int| 0 <= k < q.len() implies !(#[trigger] q[k]).contains(0) by {
        if k < n {
            assert(p[k].which is Item);
            assert(p[k].date.valid());
            record_reads_back(
                k as nat,
                p[k].date,
                shown_as(item_at(items, p[k]).original, cwd),
                n,
            );
            assert(q[k] == r[k]);
        }
    }
    join_then_split(q, 0);
    assert forall|k: int| 0 <= k < p.len() implies (p[k].which matches Which::Item(i)
        && #[trigger] q[k] == encode_utf8(decimal(k as nat)) + seq![0x09u8] + encode_utf8(
        stamp(' ', items[i as int].date),
    ) + seq![0x09u8] + encode_utf8(escaped(shown_as(items[i as int].original, cwd)))) by {
        assert(p[k].which is Item);
        let i = p[k].which->Item_0;
        assert(q[k] == r[k]);
        assert(r[k] =~= encode_utf8(decimal(k as nat)) + seq![0x09u8] + encode_utf8(
            stamp(' ', items[i as int].date),
        ) + seq![0x09u8] + encode_utf8(escaped(shown_as(items[i as int].original, cwd))));
    }
}

/// A record is read by the number before its first tab, whatever follows, and
/// counts only where it is the number of an entry.
pub proof fn a_record_is_read_by_its_number(k: nat, rest: Seq<u8>, n: nat)
    requires
        n <= usize::MAX,
        n <= u64::MAX,
    ensures
        pick_in(encode_utf8(decimal(k)).push(0x09) + rest, n) == (if k < n {
            Some(k as usize)
        } else {
            None
        }),
{
    decimal_reads_back(k);
    let x = encode_utf8(decimal(k));
    let s = x.push(0x09) + rest;
    tab_is_first(x, rest, 0);
    assert(s.take(x.len() as int) =~= x);
}

} // verus!
