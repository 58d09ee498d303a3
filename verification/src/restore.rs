//! `rip list`, `rip restore`, `rip undo` and `rip purge`: which items, in what
//! order, and the way of one item back to its place.
use vstd::prelude::*;
use vstd::string::*;
use vstd::utf8::{encode_utf8, is_ascii_chars_encode_utf8};

use crate::bytes::{append, copy, join_with, lit, of, split_on, views};
use crate::dates::{stamp, stamp_is_visible, time_is_ordered, write_spaced, DateTime};
use crate::empty::contents_fit;
use crate::load::{dated_is_ordered, dates_valid, Contents, Dated, ItemView, OrphanView, Which};
use crate::paths::{
    absolute, beyond, clean, components, comps, comps_are_well_formed, comps_of_joined, join,
    join_then_split, joined, names_in, parent_comp, render, rendered, rendered_keeps_comps,
    root_comp, same_path, starts_with, under,
};
use crate::sort::{is_order, sort, sorted, sorted_is_in_order, Ordered};
use crate::text::{
    ascii_bytes_are_chars, control, decimal, encoding_is_piecewise, escape, escaped,
    escaped_holds_no_control, number,
};
use crate::trash::{trash_views, var_view, Trash, TrashView};

verus! {

// ---------------------------------------------------------------------------
// Paths as they are shown
// ---------------------------------------------------------------------------

/// A path as it is shown: relative to the current directory if it lies there,
/// and `.` for that directory itself.
pub open spec fn shown_as(path: Seq<u8>, cwd: Seq<u8>) -> Seq<u8> {
    if under(comps(path), comps(cwd)) {
        let rest = comps(path).skip(comps(cwd).len() as int);
        if rest.len() == 0 {
            seq![0x2eu8]
        } else {
            rendered(rest)
        }
    } else {
        path
    }
}

/// The path to show for an item.
pub fn shown_path(path: &[u8], cwd: &[u8]) -> (r: Vec<u8>)
    ensures
        r@ == shown_as(path@, cwd@),
{
    match beyond(path, cwd) {
        None => copy(path),
        Some(rest) => {
            if rest.len() == 0 {
                let mut dot: Vec<u8> = Vec::new();
                dot.push(0x2e);
                assert(dot@ =~= seq![0x2eu8]);
                dot
            } else {
                render(rest.as_slice())
            }
        },
    }
}

// ---------------------------------------------------------------------------
// The items in scope
// ---------------------------------------------------------------------------

/// Those of the first `n` items whose original path is under the current
/// directory, or all of them.
pub open spec fn in_scope(items: Seq<ItemView>, cwd: Seq<u8>, all: bool, n: int) -> Seq<Dated>
    decreases n,
{
    if n <= 0 {
        Seq::empty()
    } else {
        let front = in_scope(items, cwd, all, n - 1);
        if all || under(comps(items[n - 1].original), comps(cwd)) {
            front.push(Dated { date: items[n - 1].date, which: Which::Item((n - 1) as usize) })
        } else {
            front
        }
    }
}

/// The items in scope, the oldest first.
pub open spec fn scope_of(items: Seq<ItemView>, cwd: Seq<u8>, all: bool) -> Seq<Dated> {
    sorted(in_scope(items, cwd, all, items.len() as int))
}

/// The items whose original path is under the current directory, or all of
/// them, the oldest first.
pub fn scope(c: &Contents, cwd: &[u8], all: bool) -> (out: Vec<Dated>)
    ensures
        out@ == scope_of(c@.items, cwd@, all),
{
    let ghost items = c@.items;
    let mut out: Vec<Dated> = Vec::new();
    let mut i: usize = 0;
    while i < c.items.len()
        invariant
            i <= c.items.len(),
            items == c@.items,
            out@ == in_scope(items, cwd@, all, i as int),
        decreases c.items.len() - i,
    {
        let it = &c.items[i];
        assert(items[i as int] == it@);
        if all || starts_with(it.original.as_slice(), cwd) {
            out.push(Dated { date: it.date, which: Which::Item(i) });
        }
        i = i + 1;
    }
    proof {
        dated_is_ordered();
    }
    sort(&mut out);
    out
}

proof fn in_scope_holds(items: Seq<ItemView>, cwd: Seq<u8>, all: bool, n: int, d: Dated)
    requires
        0 <= n <= items.len(),
        items.len() <= usize::MAX,
    ensures
        in_scope(items, cwd, all, n).contains(d) <==> (d.which matches Which::Item(i) && i < n
            && d.date == items[i as int].date && (all || under(
            comps(items[i as int].original),
            comps(cwd),
        ))),
    decreases n,
{
    if n > 0 {
        in_scope_holds(items, cwd, all, n - 1, d);
        let front = in_scope(items, cwd, all, n - 1);
        let s = in_scope(items, cwd, all, n);
        if front.contains(d) {
            let k = choose|k: int| 0 <= k < front.len() && front[k] == d;
            assert(s[k] == d);
        }
        if all || under(comps(items[n - 1].original), comps(cwd)) {
            assert(s[front.len() as int] == Dated {
                date: items[n - 1].date,
                which: Which::Item((n - 1) as usize),
            });
            if s.contains(d) && !front.contains(d) {
                let k = choose|k: int| 0 <= k < s.len() && s[k] == d;
                assert(k == front.len() || front[k] == d);
            }
        }
    }
}

/// Just the items in scope are listed, each as often as it is there, and none
/// before an older one.
pub proof fn scope_is_whole_and_ordered(items: Seq<ItemView>, cwd: Seq<u8>, all: bool, d: Dated)
    requires
        items.len() <= usize::MAX,
    ensures
        scope_of(items, cwd, all).contains(d) <==> (d.which matches Which::Item(i) && i
            < items.len() && d.date == items[i as int].date && (all || under(
            comps(items[i as int].original),
            comps(cwd),
        ))),
        forall|i: int, j: int|
            #![trigger scope_of(items, cwd, all)[i], scope_of(items, cwd, all)[j]]
            0 <= i < j < scope_of(items, cwd, all).len() ==> !scope_of(items, cwd, all)[j].date.earlier(
                scope_of(items, cwd, all)[i].date,
            ),
{
    broadcast use vstd::seq_lib::group_to_multiset_ensures;

    dated_is_ordered();
    let s = in_scope(items, cwd, all, items.len() as int);
    sorted_is_in_order(s);
    in_scope_holds(items, cwd, all, items.len() as int, d);
    assert(s.contains(d) <==> s.to_multiset().count(d) > 0);
    assert(sorted(s).contains(d) <==> sorted(s).to_multiset().count(d) > 0);
    assert forall|i: int, j: int|
        #![trigger sorted(s)[i], sorted(s)[j]]
        0 <= i < j < sorted(s).len() implies !sorted(s)[j].date.earlier(sorted(s)[i].date) by {
        assert(!sorted(s)[i].after(sorted(s)[j]));
    }
}

// ---------------------------------------------------------------------------
// list
// ---------------------------------------------------------------------------

/// An item as `list` writes it: a line for a person, or a record that ends in
/// NUL, with the path as it is.
pub open spec fn listed(date: DateTime, path: Seq<u8>, null: bool) -> Seq<u8> {
    if null {
        null_record(date, path).push(0)
    } else {
        encode_utf8(stamp(' ', date) + "  "@ + escaped(path) + "\n"@)
    }
}

/// A record without its end: the date, a tab and the path.
pub open spec fn null_record(date: DateTime, path: Seq<u8>) -> Seq<u8> {
    encode_utf8(stamp(' ', date)).push(0x09) + path
}

/// The item that an entry is.
pub open spec fn item_at(items: Seq<ItemView>, d: Dated) -> ItemView {
    items[d.which->Item_0 as int]
}

/// The list of the first `n` of the entries `p`.
pub open spec fn listing(
    items: Seq<ItemView>,
    p: Seq<Dated>,
    cwd: Seq<u8>,
    null: bool,
    n: int,
) -> Seq<u8>
    decreases n,
{
    if n <= 0 {
        Seq::empty()
    } else {
        listing(items, p, cwd, null, n - 1) + listed(
            p[n - 1].date,
            shown_as(item_at(items, p[n - 1]).original, cwd),
            null,
        )
    }
}

/// Every entry is an item, with its date.
pub open spec fn are_items(items: Seq<ItemView>, p: Seq<Dated>) -> bool {
    forall|k: int|
        0 <= k < p.len() ==> ((#[trigger] p[k]).which matches Which::Item(i) && i < items.len()
            && p[k].date == items[i as int].date)
}

proof fn scope_is_items(items: Seq<ItemView>, cwd: Seq<u8>, all: bool)
    requires
        items.len() <= usize::MAX,
    ensures
        are_items(items, scope_of(items, cwd, all)),
{
    let p = scope_of(items, cwd, all);
    assert forall|k: int| 0 <= k < p.len() implies ((#[trigger] p[k]).which matches Which::Item(i)
        && i < items.len() && p[k].date == items[i as int].date) by {
        scope_is_whole_and_ordered(items, cwd, all, p[k]);
        assert(p.contains(p[k]));
    }
}

fn list_one(date: &DateTime, path: &[u8], null: bool) -> (r: Vec<u8>)
    requires
        date.valid(),
    ensures
        r@ == listed(*date, path@, null),
{
    let mut s = write_spaced(date);
    if null {
        let mut r = crate::bytes::of(s.as_str());
        r.push(0x09);
        append(&mut r, path);
        r.push(0);
        r
    } else {
        s.append("  ");
        s.append(escape(path).as_str());
        s.append("\n");
        crate::bytes::of(s.as_str())
    }
}

/// What `rip list` writes: the items under the current directory, or all of
/// them, the oldest first; with `null` as records for a program.
pub fn list(c: &Contents, cwd: &[u8], all: bool, null: bool) -> (out: Vec<u8>)
    requires
        dates_valid(c@.items),
    ensures
        out@ == listing(
            c@.items,
            scope_of(c@.items, cwd@, all),
            cwd@,
            null,
            scope_of(c@.items, cwd@, all).len() as int,
        ),
{
    let ghost items = c@.items;
    let p = scope(c, cwd, all);
    proof {
        let n = c.items.len();
        scope_is_items(items, cwd@, all);
    }
    let mut out: Vec<u8> = Vec::new();
    let mut i: usize = 0;
    while i < p.len()
        invariant
            i <= p.len(),
            items == c@.items,
            dates_valid(items),
            are_items(items, p@),
            out@ == listing(items, p@, cwd@, null, i as int),
        decreases p.len() - i,
    {
        let d = p[i];
        if let Which::Item(k) = d.which {
            let it = &c.items[k];
            assert(items[k as int] == it@);
            append(
                &mut out,
                list_one(&d.date, shown_path(it.original.as_slice(), cwd).as_slice(), null).as_slice(),
            );
        }
        i = i + 1;
    }
    out
}

/// The records of a list.
pub open spec fn null_records(items: Seq<ItemView>, p: Seq<Dated>, cwd: Seq<u8>) -> Seq<Seq<u8>> {
    Seq::new(
        p.len(),
        |k: int| null_record(p[k].date, shown_as(item_at(items, p[k]).original, cwd)),
    )
}

proof fn listing_joins(items: Seq<ItemView>, p: Seq<Dated>, cwd: Seq<u8>, n: int)
    requires
        0 <= n <= p.len(),
    ensures
        listing(items, p, cwd, true, n) == join_with(
            null_records(items, p, cwd).take(n).push(Seq::empty()),
            0,
        ),
    decreases n,
{
    let r = null_records(items, p, cwd);
    if n > 0 {
        listing_joins(items, p, cwd, n - 1);
        let q = r.take(n).push(Seq::empty());
        assert(q.drop_last() =~= r.take(n));
        assert(r.take(n).drop_last() =~= r.take(n - 1));
        assert(r.take(n - 1).push(Seq::<u8>::empty()).drop_last() =~= r.take(n - 1));
        if n == 1 {
            assert(join_with(r.take(1), 0) == r[0]);
            assert(listing(items, p, cwd, true, 0) =~= Seq::empty());
        } else {
            let before = r.take(n - 1);
            let w = before.push(Seq::<u8>::empty());
            assert(join_with(w, 0) =~= join_with(before, 0).push(0));
            assert(join_with(r.take(n), 0) == join_with(before, 0).push(0) + r[n - 1]);
        }
        assert(join_with(q, 0) =~= join_with(r.take(n), 0).push(0));
        assert(listing(items, p, cwd, true, n) =~= join_with(q, 0));
    } else {
        assert(r.take(0).push(Seq::<u8>::empty()).drop_last() =~= r.take(0));
    }
}

proof fn names_hold_no(pieces: Seq<Seq<u8>>, b: u8, i: int)
    requires
        forall|k: int| 0 <= k < pieces.len() ==> !(#[trigger] pieces[k]).contains(b),
        0 <= i < names_in(pieces).len(),
    ensures
        !names_in(pieces)[i].contains(b),
    decreases pieces.len(),
{
    let front = pieces.drop_last();
    assert forall|k: int| 0 <= k < front.len() implies !(#[trigger] front[k]).contains(b) by {
        assert(front[k] == pieces[k]);
    }
    assert(!pieces[pieces.len() - 1].contains(b));
    if i < names_in(front).len() {
        names_hold_no(front, b, i);
    }
}

proof fn pieces_hold_no(s: Seq<u8>, sep: u8, b: u8)
    requires
        !s.contains(b),
    ensures
        forall|k: int|
            0 <= k < split_on(s, sep).len() ==> !(#[trigger] split_on(s, sep)[k]).contains(b),
    decreases s.len(),
{
    if s.len() > 0 {
        let t = s.drop_last();
        assert forall|x: int| 0 <= x < t.len() implies t[x] != b by {
            assert(t[x] == s[x]);
        }
        pieces_hold_no(t, sep, b);
        assert(s[s.len() - 1] != b);
        let p = split_on(t, sep);
        let q = split_on(s, sep);
        assert forall|k: int| 0 <= k < q.len() implies !(#[trigger] q[k]).contains(b) by {
            if k < p.len() {
                assert(!p[k].contains(b));
            }
            if p.len() > 0 {
                assert(!p[p.len() - 1].contains(b));
            }
        }
    }
}

proof fn join_holds_no(pieces: Seq<Seq<u8>>, sep: u8, b: u8)
    requires
        sep != b,
        forall|k: int| 0 <= k < pieces.len() ==> !(#[trigger] pieces[k]).contains(b),
    ensures
        !join_with(pieces, sep).contains(b),
    decreases pieces.len(),
{
    if pieces.len() > 1 {
        let front = pieces.drop_last();
        assert forall|k: int| 0 <= k < front.len() implies !(#[trigger] front[k]).contains(b) by {
            assert(front[k] == pieces[k]);
        }
        join_holds_no(front, sep, b);
        let j = join_with(front, sep);
        let last = pieces[pieces.len() - 1];
        let all = j.push(sep) + last;
        assert(!last.contains(b));
        assert forall|x: int| 0 <= x < all.len() implies all[x] != b by {
            if x < j.len() {
                assert(j[x] != b);
            } else if x > j.len() {
                assert(last[x - j.len() - 1] != b);
            }
        }
    } else if pieces.len() == 1 {
        assert(!pieces[0].contains(b));
    }
}

/// What is shown of a path holds no NUL if the path holds none.
pub proof fn shown_holds_no_nul(path: Seq<u8>, cwd: Seq<u8>)
    requires
        !path.contains(0),
    ensures
        !shown_as(path, cwd).contains(0),
{
    if under(comps(path), comps(cwd)) {
        let c = comps(path);
        let pieces = split_on(path, 0x2f);
        pieces_hold_no(path, 0x2f, 0);
        assert forall|k: int| 0 <= k < c.len() implies !(#[trigger] c[k]).contains(0) by {
            let names = names_in(pieces);
            let skip = c.len() - names.len();
            if k >= skip {
                names_hold_no(pieces, 0, k - skip);
            }
        }
        let rest = c.skip(comps(cwd).len() as int);
        assert forall|k: int| 0 <= k < rest.len() implies !(#[trigger] rest[k]).contains(0) by {
            assert(rest[k] == c[comps(cwd).len() + k]);
        }
        if rest.len() > 0 {
            assert forall|k: int| 0 <= k < rest.skip(1).len() implies !(#[trigger] rest.skip(
                1,
            )[k]).contains(0) by {
                assert(rest.skip(1)[k] == rest[k + 1]);
            }
            join_holds_no(rest, 0x2f, 0);
            join_holds_no(rest.skip(1), 0x2f, 0);
            let j = join_with(rest.skip(1), 0x2f);
            let all = seq![0x2fu8] + j;
            assert forall|x: int| 0 <= x < all.len() implies all[x] != 0 by {
                if x > 0 {
                    assert(j[x - 1] != 0);
                }
            }
        }
    }
}

proof fn stamp_holds_no_nul(d: DateTime)
    requires
        d.valid(),
    ensures
        !encode_utf8(stamp(' ', d)).contains(0),
{
    let s = stamp(' ', d);
    stamp_is_visible(' ', d);
    if encode_utf8(s).contains(0) {
        ascii_bytes_are_chars(s, 0);
        let i = choose|i: int| 0 <= i < s.len() && s[i] == 0u8 as char;
        assert(' ' <= s[i]);
    }
}

/// The records of `list -0` come apart at the NULs, each as it was, whatever
/// else a path holds.
pub proof fn null_records_come_apart(items: Seq<ItemView>, p: Seq<Dated>, cwd: Seq<u8>)
    requires
        are_items(items, p),
        dates_valid(items),
        forall|i: int| 0 <= i < items.len() ==> !(#[trigger] items[i]).original.contains(0),
    ensures
        split_on(listing(items, p, cwd, true, p.len() as int), 0) == null_records(
            items,
            p,
            cwd,
        ).push(Seq::empty()),
{
    let r = null_records(items, p, cwd);
    let q = r.push(Seq::empty());
    listing_joins(items, p, cwd, p.len() as int);
    assert(r.take(r.len() as int) =~= r);
    assert forall|k: int| 0 <= k < q.len() implies !(#[trigger] q[k]).contains(0) by {
        if k < r.len() {
            let it = item_at(items, p[k]);
            shown_holds_no_nul(it.original, cwd);
            stamp_holds_no_nul(p[k].date);
            let a = encode_utf8(stamp(' ', p[k].date)).push(0x09);
            let b = shown_as(it.original, cwd);
            assert forall|x: int| 0 <= x < (a + b).len() implies (a + b)[x] != 0 by {
                if x < a.len() - 1 {
                    assert(encode_utf8(stamp(' ', p[k].date))[x] != 0);
                } else if x >= a.len() {
                    assert(b[x - a.len()] != 0);
                }
            }
        }
    }
    join_then_split(q, 0);
}

proof fn lines_join(items: Seq<ItemView>, p: Seq<Dated>, cwd: Seq<u8>, n: int)
    requires
        0 <= n <= p.len(),
    ensures
        listing(items, p, cwd, false, n) == join_with(
            lines_for(items, p, cwd).take(n).push(Seq::empty()),
            0x0a,
        ),
    decreases n,
{
    let r = lines_for(items, p, cwd);
    if n > 0 {
        lines_join(items, p, cwd, n - 1);
        let q = r.take(n).push(Seq::empty());
        assert(q.drop_last() =~= r.take(n));
        assert(r.take(n).drop_last() =~= r.take(n - 1));
        assert(r.take(n - 1).push(Seq::<u8>::empty()).drop_last() =~= r.take(n - 1));
        let before = r.take(n - 1);
        if n == 1 {
            assert(join_with(r.take(1), 0x0a) == r[0]);
            assert(listing(items, p, cwd, false, 0) =~= Seq::empty());
        } else {
            let w = before.push(Seq::<u8>::empty());
            assert(join_with(w, 0x0a) =~= join_with(before, 0x0a).push(0x0a));
            assert(join_with(r.take(n), 0x0a) == join_with(before, 0x0a).push(0x0a) + r[n - 1]);
        }
        assert(join_with(q, 0x0a) =~= join_with(r.take(n), 0x0a).push(0x0a));
        let text = stamp(' ', p[n - 1].date) + "  "@ + escaped(
            shown_as(item_at(items, p[n - 1]).original, cwd),
        );
        reveal_strlit("\n");
        assert("\n"@ =~= seq!['\n']);
        encoding_is_piecewise(text, "\n"@);
        is_ascii_chars_encode_utf8("\n"@);
        assert(encode_utf8("\n"@) =~= seq![0x0au8]);
        assert(encode_utf8(text + "\n"@) =~= encode_utf8(text).push(0x0a));
        assert(listing(items, p, cwd, false, n) =~= join_with(q, 0x0a));
    } else {
        assert(r.take(0).push(Seq::<u8>::empty()).drop_last() =~= r.take(0));
    }
}

/// The lines of a list for a person.
spec fn lines_for(items: Seq<ItemView>, p: Seq<Dated>, cwd: Seq<u8>) -> Seq<Seq<u8>> {
    Seq::new(
        p.len(),
        |k: int|
            encode_utf8(
                stamp(' ', p[k].date) + "  "@ + escaped(
                    shown_as(item_at(items, p[k]).original, cwd),
                ),
            ),
    )
}

proof fn line_holds_no_newline(d: DateTime, path: Seq<u8>)
    requires
        d.valid(),
    ensures
        !encode_utf8(stamp(' ', d) + "  "@ + escaped(path)).contains(0x0a),
{
    let a = stamp(' ', d);
    let e = escaped(path);
    let t = a + "  "@ + e;
    stamp_is_visible(' ', d);
    escaped_holds_no_control(path);
    reveal_strlit("  ");
    if encode_utf8(t).contains(0x0a) {
        ascii_bytes_are_chars(t, 0x0a);
        let i = choose|i: int| 0 <= i < t.len() && t[i] == 0x0au8 as char;
        if i < a.len() {
            assert(t[i] == a[i]);
        } else if i < a.len() + 2 {
            assert(t[i] == "  "@[i - a.len()]);
        } else {
            assert(t[i] == e[i - a.len() - 2]);
            assert(control('\n'));
        }
    }
}

/// A list for a person has one line for each of its items, none left out and
/// none merged with another, in their order: the item's date, two spaces and
/// its path as it is shown.
pub proof fn each_item_has_its_line(items: Seq<ItemView>, p: Seq<Dated>, cwd: Seq<u8>)
    requires
        are_items(items, p),
        dates_valid(items),
    ensures
        ({
            let lines = split_on(listing(items, p, cwd, false, p.len() as int), 0x0a);
            &&& lines.len() == p.len() + 1
            &&& lines.last().len() == 0
            &&& forall|k: int|
                0 <= k < p.len() ==> (p[k].which matches Which::Item(i) && #[trigger] lines[k]
                    == encode_utf8(
                    stamp(' ', items[i as int].date) + "  "@ + escaped(
                        shown_as(items[i as int].original, cwd),
                    ),
                ))
        }),
{
    let r = lines_for(items, p, cwd);
    let q = r.push(Seq::empty());
    lines_join(items, p, cwd, p.len() as int);
    assert(r.take(r.len() as int) =~= r);
    assert forall|k: int| 0 <= k < q.len() implies !(#[trigger] q[k]).contains(0x0a) by {
        if k < r.len() {
            assert(p[k].which is Item);
            line_holds_no_newline(p[k].date, shown_as(item_at(items, p[k]).original, cwd));
        }
    }
    join_then_split(q, 0x0a);
    assert forall|k: int| 0 <= k < p.len() implies (p[k].which matches Which::Item(i)
        && #[trigger] q[k] == encode_utf8(
        stamp(' ', items[i as int].date) + "  "@ + escaped(
            shown_as(items[i as int].original, cwd),
        ),
    )) by {
        assert(p[k].which is Item);
    }
}

/// A list for a program has one record for each of its items, in their order:
/// the item's date, a tab and its path as it is shown, byte for byte.
pub proof fn each_item_has_its_record(items: Seq<ItemView>, p: Seq<Dated>, cwd: Seq<u8>)
    requires
        are_items(items, p),
        dates_valid(items),
        forall|i: int| 0 <= i < items.len() ==> !(#[trigger] items[i]).original.contains(0),
    ensures
        ({
            let records = split_on(listing(items, p, cwd, true, p.len() as int), 0);
            &&& records.len() == p.len() + 1
            &&& records.last().len() == 0
            &&& forall|k: int|
                0 <= k < p.len() ==> (p[k].which matches Which::Item(i) && #[trigger] records[k]
                    == encode_utf8(stamp(' ', items[i as int].date)) + seq![0x09u8] + shown_as(
                    items[i as int].original,
                    cwd,
                ))
        }),
{
    null_records_come_apart(items, p, cwd);
    let q = null_records(items, p, cwd).push(Seq::empty());
    assert forall|k: int| 0 <= k < p.len() implies (p[k].which matches Which::Item(i)
        && #[trigger] q[k] == encode_utf8(stamp(' ', items[i as int].date)) + seq![0x09u8]
        + shown_as(items[i as int].original, cwd)) by {
        assert(p[k].which is Item);
        let i = p[k].which->Item_0;
        assert(q[k] =~= encode_utf8(stamp(' ', items[i as int].date)) + seq![0x09u8] + shown_as(
            items[i as int].original,
            cwd,
        ));
    }
}

proof fn in_scope_rises(items: Seq<ItemView>, cwd: Seq<u8>, all: bool, n: int)
    requires
        0 <= n <= items.len(),
        items.len() <= usize::MAX,
    ensures
        in_scope(items, cwd, all, n).no_duplicates(),
    decreases n,
{
    if n > 0 {
        in_scope_rises(items, cwd, all, n - 1);
        let front = in_scope(items, cwd, all, n - 1);
        let s = in_scope(items, cwd, all, n);
        let d = Dated { date: items[n - 1].date, which: Which::Item((n - 1) as usize) };
        in_scope_holds(items, cwd, all, n - 1, d);
        assert forall|i: int, j: int| 0 <= i < j < s.len() implies s[i] != s[j] by {
            assert(front[i] == s[i]);
            if j < front.len() {
                assert(front[j] == s[j]);
            } else if s[i] == s[j] {
                assert(front.contains(d));
            }
        }
    }
}

/// No item is listed twice.
pub proof fn nothing_is_listed_twice(items: Seq<ItemView>, cwd: Seq<u8>, all: bool)
    requires
        items.len() <= usize::MAX,
    ensures
        scope_of(items, cwd, all).no_duplicates(),
{
    let s = in_scope(items, cwd, all, items.len() as int);
    in_scope_rises(items, cwd, all, items.len() as int);
    sorted_repeats_nothing(s);
}

proof fn sorted_repeats_nothing(s: Seq<Dated>)
    requires
        s.no_duplicates(),
    ensures
        sorted(s).no_duplicates(),
        sorted(s).len() == s.len(),
        forall|d: Dated| #[trigger] sorted(s).contains(d) <==> s.contains(d),
        forall|i: int, j: int|
            #![trigger sorted(s)[i], sorted(s)[j]]
            0 <= i < j < s.len() ==> !sorted(s)[j].date.earlier(sorted(s)[i].date),
{
    broadcast use vstd::seq_lib::group_to_multiset_ensures;

    dated_is_ordered();
    sorted_is_in_order(s);
    let q = sorted(s);
    assert(s.to_multiset().len() == s.len());
    assert(q.to_multiset().len() == q.len());
    s.lemma_multiset_has_no_duplicates();
    assert forall|d: Dated| #[trigger] q.to_multiset().contains(d) implies q.to_multiset().count(d)
        == 1 by {
        assert(s.to_multiset().contains(d));
    }
    q.lemma_multiset_has_no_duplicates_conv();
    assert forall|d: Dated| #[trigger] q.contains(d) <==> s.contains(d) by {
        assert(s.contains(d) <==> s.to_multiset().count(d) > 0);
        assert(q.contains(d) <==> q.to_multiset().count(d) > 0);
    }
    assert forall|i: int, j: int|
        #![trigger q[i], q[j]]
        0 <= i < j < q.len() implies !q[j].date.earlier(q[i].date) by {
        assert(!q[i].after(q[j]));
    }
}

/// What is shown of a path leads from the current directory to the path itself,
/// and where the path does not lie under it, it is the path as it is.
pub proof fn what_is_shown_leads_there(path: Seq<u8>, cwd: Seq<u8>)
    requires
        cwd.len() > 0,
        absolute(cwd),
    ensures
        !(exists|rest: Seq<Seq<u8>>| comps(path) == #[trigger] (comps(cwd) + rest)) ==> shown_as(
            path,
            cwd,
        ) == path,
        (exists|rest: Seq<Seq<u8>>| comps(path) == #[trigger] (comps(cwd) + rest)) ==> !absolute(
            shown_as(path, cwd),
        ) && comps(joined(cwd, shown_as(path, cwd))) == comps(path),
{
    let c = comps(path);
    let b = comps(cwd);
    if under(c, b) {
        let rest = c.skip(b.len() as int);
        assert(c =~= b + rest);
        comps_are_well_formed(path);
        assert(b[0] == root_comp());
        if rest.len() == 0 {
            let dot = seq![0x2eu8];
            comps_of_joined(cwd, dot);
            assert(dot.drop_last() =~= Seq::empty());
            reveal_with_fuel(split_on, 2);
            reveal_with_fuel(names_in, 2);
            assert(split_on(dot, 0x2f) =~= seq![dot]);
            assert(names_in(split_on(dot, 0x2f)) =~= Seq::empty());
        } else {
            assert forall|i: int| 0 <= i < rest.len() implies crate::paths::is_name(
                #[trigger] rest[i],
            ) by {
                assert(rest[i] == c[b.len() + i]);
            }
            let r = rendered(rest);
            assert(rest[0] != root_comp()) by {
                if rest[0] == root_comp() {
                    assert(root_comp()[0] == 0x2f);
                    assert(rest[0].contains(0x2f));
                }
            }
            rendered_keeps_comps(rest);
            if absolute(r) {
                assert(comps(r)[0] == root_comp());
            }
            comps_of_joined(cwd, r);
            assert(rest[0] != crate::paths::dot_comp());
            if split_on(r, 0x2f)[0] == crate::paths::dot_comp() {
                assert(comps(r)[0] == crate::paths::dot_comp());
            }
            assert(names_in(split_on(r, 0x2f)) == rest);
        }
    } else {
        assert forall|rest: Seq<Seq<u8>>| c != #[trigger] (b + rest) by {
            if c == b + rest {
                assert(c.take(b.len() as int) =~= b);
            }
        }
    }
}

// ---------------------------------------------------------------------------
// What a PATH argument names
// ---------------------------------------------------------------------------

/// A PATH argument, put under the current directory unless it is absolute, in
/// two parts: the directory and the last name. `None` where it ends in no name.
pub open spec fn parts_of(cwd: Seq<u8>, arg: Seq<u8>) -> Option<(Seq<u8>, Seq<u8>)> {
    let c = comps(joined(cwd, arg));
    if c.len() < 2 || c.last() == parent_comp() {
        None
    } else {
        Some((rendered(c.drop_last()), c.last()))
    }
}

/// Splits a PATH argument into its directory and its last name, so that the
/// directory can be looked up.
pub fn resolve_parts(cwd: &[u8], arg: &[u8]) -> (r: Option<(Vec<u8>, Vec<u8>)>)
    ensures
        match r {
            Some(p) => parts_of(cwd@, arg@) == Some((p.0@, p.1@)),
            None => parts_of(cwd@, arg@) is None,
        },
{
    let mut c = components(join(cwd, arg).as_slice());
    let ghost all = views(c@);
    let n: usize = c.len();
    if n < 2 {
        return None;
    }
    let last = match c.pop() {
        Some(x) => x,
        None => return None,
    };
    assert(views(c@) =~= all.drop_last());
    assert(last@ == all.last());
    if last.len() == 2 && last[0] == 0x2e && last[1] == 0x2e {
        assert(last@ =~= parent_comp());
        return None;
    }
    Some((render(c.as_slice()), last))
}

/// The path that a PATH argument names. `dir` is the real path of its
/// directory, where there is one; else the argument counts as it is written.
pub open spec fn resolved_of(cwd: Seq<u8>, arg: Seq<u8>, dir: Option<Seq<u8>>) -> Seq<u8> {
    match (parts_of(cwd, arg), dir) {
        (Some(p), Some(d)) => joined(d, p.1),
        _ => rendered(comps(joined(cwd, arg))),
    }
}

/// The path that a PATH argument names.
pub fn resolve(cwd: &[u8], arg: &[u8], dir: Option<Vec<u8>>) -> (r: Vec<u8>)
    ensures
        r@ == resolved_of(cwd@, arg@, var_view(dir)),
{
    match (resolve_parts(cwd, arg), dir) {
        (Some(p), Some(d)) => join(d.as_slice(), p.1.as_slice()),
        _ => clean(join(cwd, arg).as_slice()),
    }
}

/// The directory and the last name of a PATH argument together name what the
/// argument names from the current directory. Only what ends in no name, or in
/// `..`, has no such parts.
pub proof fn parts_name_the_path(cwd: Seq<u8>, arg: Seq<u8>)
    ensures
        match parts_of(cwd, arg) {
            Some(p) => comps(p.0).push(p.1) == comps(joined(cwd, arg)) && comps(p.0).len() > 0
                && p.1 != seq![0x2eu8, 0x2eu8],
            None => comps(joined(cwd, arg)).len() < 2 || comps(joined(cwd, arg)).last() == seq![
                0x2eu8,
                0x2eu8,
            ],
        },
{
    let c = comps(joined(cwd, arg));
    comps_are_well_formed(joined(cwd, arg));
    if let Some(p) = parts_of(cwd, arg) {
        let front = c.drop_last();
        assert forall|i: int| 0 <= i < front.len() implies (crate::paths::is_name(
            #[trigger] front[i],
        ) || (i == 0 && (front[i] == root_comp() || front[i] == crate::paths::dot_comp()))) by {
            assert(front[i] == c[i]);
        }
        rendered_keeps_comps(front);
        assert(front.push(c.last()) =~= c);
    }
}

/// A PATH argument names its last name in the real directory, where there is
/// one, and else just what is written, from the current directory.
pub proof fn a_path_is_resolved_by_its_directory(
    cwd: Seq<u8>,
    arg: Seq<u8>,
    dir: Option<Seq<u8>>,
)
    requires
        dir matches Some(d) ==> d.len() > 0,
    ensures
        match dir {
            Some(d) if parts_of(cwd, arg) is Some => comps(resolved_of(cwd, arg, dir)) == comps(
                d,
            ).push(comps(joined(cwd, arg)).last()),
            _ => comps(resolved_of(cwd, arg, dir)) == comps(joined(cwd, arg)),
        },
{
    let c = comps(joined(cwd, arg));
    comps_are_well_formed(joined(cwd, arg));
    rendered_keeps_comps(c);
    if parts_of(cwd, arg) is Some && dir is Some {
        crate::paths::a_name_is_one_component_more(dir->0, c.last());
        assert(crate::paths::is_name(c[c.len() - 1]));
        if absolute(c.last()) {
            assert(c.last().contains(0x2f));
        }
    }
}

/// Where an entry lies: `files/NAME` in its trash directory.
pub open spec fn trash_path_of(root: Seq<u8>, name: Seq<u8>) -> Seq<u8> {
    joined(joined(root, lit("files")), name)
}

/// The place of an entry in its trash directory.
pub fn trash_path(t: &Trash, name: &[u8]) -> (p: Vec<u8>)
    ensures
        p@ == trash_path_of(t.path@, name@),
{
    join(join(t.path.as_slice(), of("files").as_slice()).as_slice(), name)
}

/// An entry of the `t`th trash directory lies at `path`.
pub open spec fn lies_at(ts: Seq<TrashView>, t: int, name: Seq<u8>, path: Seq<u8>) -> bool {
    0 <= t < ts.len() && comps(trash_path_of(ts[t].path, name)) == comps(path)
}

fn lies(ts: &Vec<Trash>, t: usize, name: &[u8], path: &[u8]) -> (r: bool)
    ensures
        r == lies_at(trash_views(ts@), t as int, name@, path@),
{
    t < ts.len() && same_path(trash_path(&ts[t], name).as_slice(), path)
}

/// The first item from the `i`th on that lies at `path`.
pub open spec fn item_lying(
    ts: Seq<TrashView>,
    items: Seq<ItemView>,
    path: Seq<u8>,
    i: int,
) -> Option<int>
    decreases items.len() - i,
{
    if i < 0 || i >= items.len() {
        None
    } else if lies_at(ts, items[i].trash, items[i].name, path) {
        Some(i)
    } else {
        item_lying(ts, items, path, i + 1)
    }
}

/// The first orphan from the `i`th on that lies at `path`.
pub open spec fn orphan_lying(
    ts: Seq<TrashView>,
    orphans: Seq<OrphanView>,
    path: Seq<u8>,
    i: int,
) -> Option<int>
    decreases orphans.len() - i,
{
    if i < 0 || i >= orphans.len() {
        None
    } else if lies_at(ts, orphans[i].trash, orphans[i].name, path) {
        Some(i)
    } else {
        orphan_lying(ts, orphans, path, i + 1)
    }
}

/// Those of the first `n` items that were at `path`.
pub open spec fn were_at(items: Seq<ItemView>, path: Seq<u8>, n: int) -> Seq<Dated>
    decreases n,
{
    if n <= 0 {
        Seq::empty()
    } else {
        let front = were_at(items, path, n - 1);
        if comps(items[n - 1].original) == comps(path) {
            front.push(Dated { date: items[n - 1].date, which: Which::Item((n - 1) as usize) })
        } else {
            front
        }
    }
}

/// What a path names in the trash.
#[verifier::ext_equal]
pub enum FoundView {
    Nothing,
    One(Which),
    Several(Seq<Dated>),
}

/// What a path names in the trash.
#[derive(Debug)]
pub enum Found {
    Nothing,
    One(Which),
    /// Several items were there; the oldest is the first.
    Several(Vec<Dated>),
}

impl View for Found {
    type V = FoundView;

    open spec fn view(&self) -> FoundView {
        match self {
            Found::Nothing => FoundView::Nothing,
            Found::One(w) => FoundView::One(*w),
            Found::Several(v) => FoundView::Several(v@),
        }
    }
}

/// What a path names: the entry that lies there in a trash directory, else the
/// items that were there before they were trashed.
pub open spec fn found_at(
    ts: Seq<TrashView>,
    items: Seq<ItemView>,
    orphans: Seq<OrphanView>,
    path: Seq<u8>,
) -> FoundView {
    match item_lying(ts, items, path, 0) {
        Some(i) => FoundView::One(Which::Item(i as usize)),
        None => match orphan_lying(ts, orphans, path, 0) {
            Some(i) => FoundView::One(Which::Orphan(i as usize)),
            None => {
                let v = were_at(items, path, items.len() as int);
                if v.len() == 0 {
                    FoundView::Nothing
                } else if v.len() == 1 {
                    FoundView::One(v[0].which)
                } else {
                    FoundView::Several(sorted(v))
                }
            },
        },
    }
}

fn find_item(ts: &Vec<Trash>, c: &Contents, path: &[u8]) -> (r: Option<usize>)
    ensures
        match r {
            Some(i) => item_lying(trash_views(ts@), c@.items, path@, 0) == Some(i as int),
            None => item_lying(trash_views(ts@), c@.items, path@, 0) is None,
        },
{
    let mut i: usize = 0;
    while i < c.items.len()
        invariant
            i <= c.items.len(),
            item_lying(trash_views(ts@), c@.items, path@, 0) == item_lying(
                trash_views(ts@),
                c@.items,
                path@,
                i as int,
            ),
        decreases c.items.len() - i,
    {
        let it = &c.items[i];
        assert(c@.items[i as int] == it@);
        if lies(ts, it.trash, it.name.as_slice(), path) {
            return Some(i);
        }
        i = i + 1;
    }
    None
}

fn find_orphan(ts: &Vec<Trash>, c: &Contents, path: &[u8]) -> (r: Option<usize>)
    ensures
        match r {
            Some(i) => orphan_lying(trash_views(ts@), c@.orphans, path@, 0) == Some(i as int),
            None => orphan_lying(trash_views(ts@), c@.orphans, path@, 0) is None,
        },
{
    let mut i: usize = 0;
    while i < c.orphans.len()
        invariant
            i <= c.orphans.len(),
            orphan_lying(trash_views(ts@), c@.orphans, path@, 0) == orphan_lying(
                trash_views(ts@),
                c@.orphans,
                path@,
                i as int,
            ),
        decreases c.orphans.len() - i,
    {
        let o = &c.orphans[i];
        assert(c@.orphans[i as int] == o@);
        if lies(ts, o.trash, o.name.as_slice(), path) {
            return Some(i);
        }
        i = i + 1;
    }
    None
}

fn find_original(c: &Contents, path: &[u8]) -> (v: Vec<Dated>)
    ensures
        v@ == were_at(c@.items, path@, c@.items.len() as int),
{
    let mut v: Vec<Dated> = Vec::new();
    let mut i: usize = 0;
    while i < c.items.len()
        invariant
            i <= c.items.len(),
            v@ == were_at(c@.items, path@, i as int),
        decreases c.items.len() - i,
    {
        let it = &c.items[i];
        assert(c@.items[i as int] == it@);
        if same_path(it.original.as_slice(), path) {
            v.push(Dated { date: it.date, which: Which::Item(i) });
        }
        i = i + 1;
    }
    v
}

/// Finds what a path names in the trash.
pub fn find(ts: &Vec<Trash>, c: &Contents, path: &[u8]) -> (r: Found)
    ensures
        r@ == found_at(trash_views(ts@), c@.items, c@.orphans, path@),
{
    if let Some(i) = find_item(ts, c, path) {
        return Found::One(Which::Item(i));
    }
    if let Some(i) = find_orphan(ts, c, path) {
        return Found::One(Which::Orphan(i));
    }
    let mut v = find_original(c, path);
    if v.len() == 0 {
        Found::Nothing
    } else if v.len() == 1 {
        Found::One(v[0].which)
    } else {
        proof {
            dated_is_ordered();
        }
        sort(&mut v);
        Found::Several(v)
    }
}

// ---------------------------------------------------------------------------
// Selection for restore and purge
// ---------------------------------------------------------------------------

/// A PATH argument: as it was written, and the path that it names.
#[derive(Debug)]
pub struct Asked {
    pub arg: Vec<u8>,
    pub path: Vec<u8>,
}

/// What is about to be done with the selected entries.
#[derive(Clone, Copy, PartialEq, Eq, Debug, Structural)]
pub enum Deed {
    Restore,
    Purge,
}

/// The word for it.
pub open spec fn verb(d: Deed) -> Seq<char> {
    match d {
        Deed::Restore => "restore"@,
        Deed::Purge => "delete"@,
    }
}

/// How every complaint about one item begins.
pub open spec fn cannot(d: Deed, arg: Seq<u8>) -> Seq<char> {
    "cannot "@ + verb(d) + " '"@ + escaped(arg) + "': "@
}

/// A refusal begins with the deed and the path as it was given.
pub proof fn a_refusal_names_deed_and_path(d: Deed, arg: Seq<u8>)
    ensures
        d is Restore ==> cannot(d, arg) == "cannot "@ + "restore"@ + " '"@ + escaped(arg) + "': "@,
        d is Purge ==> cannot(d, arg) == "cannot "@ + "delete"@ + " '"@ + escaped(arg) + "': "@,
{
}

pub(crate) fn say_cannot(d: Deed, arg: &[u8]) -> (s: String)
    ensures
        s@ == cannot(d, arg@),
{
    let mut s = String::from_str("cannot ");
    match d {
        Deed::Restore => {
            s.append("restore");
        },
        Deed::Purge => {
            s.append("delete");
        },
    }
    s.append(" '");
    s.append(escape(arg).as_str());
    s.append("': ");
    s
}

/// The first `n` of several items with one original path, each on a line with
/// its date and its place in the trash.
pub open spec fn variants(
    ts: Seq<TrashView>,
    items: Seq<ItemView>,
    v: Seq<Dated>,
    n: int,
) -> Seq<char>
    decreases n,
{
    if n <= 0 {
        Seq::empty()
    } else {
        let it = item_at(items, v[n - 1]);
        variants(ts, items, v, n - 1) + "\n  "@ + stamp(' ', v[n - 1].date) + "  "@ + escaped(
            trash_path_of(ts[it.trash].path, it.name),
        )
    }
}

fn say_variants(ts: &Vec<Trash>, c: &Contents, v: &Vec<Dated>) -> (s: String)
    requires
        are_items(c@.items, v@),
        dates_valid(c@.items),
        contents_fit(c@.items, c@.orphans, ts@.len() as int),
    ensures
        s@ == variants(trash_views(ts@), c@.items, v@, v@.len() as int),
{
    let ghost items = c@.items;
    let ghost dirs = trash_views(ts@);
    let mut s = String::new();
    let mut i: usize = 0;
    assert(s@ =~= Seq::empty());
    while i < v.len()
        invariant
            i <= v.len(),
            items == c@.items,
            dirs == trash_views(ts@),
            are_items(items, v@),
            dates_valid(items),
            contents_fit(c@.items, c@.orphans, ts@.len() as int),
            s@ == variants(dirs, items, v@, i as int),
        decreases v.len() - i,
    {
        let d = v[i];
        if let Which::Item(k) = d.which {
            let it = &c.items[k];
            assert(items[k as int] == it@);
            s.append("\n  ");
            s.append(write_spaced(&d.date).as_str());
            s.append("  ");
            assert(dirs[it.trash as int] == ts@[it.trash as int]@);
            s.append(escape(trash_path(&ts[it.trash], it.name.as_slice()).as_slice()).as_str());
        }
        i = i + 1;
    }
    s
}

/// What one PATH argument selects, or why it selects nothing. Without a
/// terminal nobody can choose among several.
pub open spec fn selected(
    d: Deed,
    tty: bool,
    ts: Seq<TrashView>,
    items: Seq<ItemView>,
    orphans: Seq<OrphanView>,
    arg: Seq<u8>,
    path: Seq<u8>,
) -> Result<FoundView, Seq<char>> {
    let f = found_at(ts, items, orphans, path);
    match f {
        FoundView::Nothing => Err(cannot(d, arg) + "nothing in the trash has this path"@),
        FoundView::One(Which::Orphan(_)) if d is Restore => Err(
            cannot(d, arg)
                + "its .trashinfo is missing or malformed; use `rip purge` to delete it"@,
        ),
        FoundView::Several(v) if !tty => Err(
            cannot(d, arg) + "several trashed items have this path; name one of them:"@ + variants(
                ts,
                items,
                v,
                v.len() as int,
            ),
        ),
        f => Ok(f),
    }
}

/// A list of findings as contents.
pub open spec fn found_views(v: Seq<Found>) -> Seq<FoundView> {
    Seq::new(v.len(), |i: int| v[i]@)
}

/// What the first `n` PATH arguments select, or what is wrong with the first
/// that selects nothing.
pub open spec fn selected_all(
    d: Deed,
    tty: bool,
    ts: Seq<TrashView>,
    items: Seq<ItemView>,
    orphans: Seq<OrphanView>,
    asked: Seq<(Seq<u8>, Seq<u8>)>,
    n: int,
) -> Result<Seq<FoundView>, Seq<char>>
    decreases n,
{
    if n <= 0 {
        Ok(Seq::empty())
    } else {
        match selected_all(d, tty, ts, items, orphans, asked, n - 1) {
            Err(e) => Err(e),
            Ok(front) => match selected(
                d,
                tty,
                ts,
                items,
                orphans,
                asked[n - 1].0,
                asked[n - 1].1,
            ) {
                Err(e) => Err(e),
                Ok(f) => Ok(front.push(f)),
            },
        }
    }
}

/// PATH arguments as contents.
pub open spec fn asked_views(v: Seq<Asked>) -> Seq<(Seq<u8>, Seq<u8>)> {
    Seq::new(v.len(), |i: int| (v[i].arg@, v[i].path@))
}

/// What was asked for is read part by part: the path as it was given and the path it stands for.
pub proof fn what_is_asked_is_read_part_by_part(v: Seq<Asked>)
    ensures
        asked_views(v).len() == v.len(),
        forall|i: int|
            0 <= i < v.len() ==> #[trigger] asked_views(v)[i] == (v[i].arg@, v[i].path@),
{
}

/// A result with findings as contents.
pub open spec fn selection_of(r: Result<Vec<Found>, String>) -> Result<Seq<FoundView>, Seq<char>> {
    match r {
        Ok(v) => Ok(found_views(v@)),
        Err(e) => Err(e@),
    }
}

/// A selection is read as it is: what each path names, in its place, or the message.
pub proof fn a_selection_is_read_as_it_is(r: Result<Vec<Found>, String>)
    ensures
        r matches Ok(v) ==> selection_of(r) matches Ok(s) && s.len() == v@.len() && forall|i: int|
            0 <= i < v@.len() ==> #[trigger] s[i] == v@[i]@,
        r matches Err(e) ==> selection_of(r) == Err::<Seq<FoundView>, Seq<char>>(e@),
{
}

proof fn were_at_is_items(items: Seq<ItemView>, path: Seq<u8>, n: int)
    requires
        0 <= n <= items.len(),
        items.len() <= usize::MAX,
    ensures
        are_items(items, were_at(items, path, n)),
    decreases n,
{
    if n > 0 {
        were_at_is_items(items, path, n - 1);
    }
}

proof fn sorted_keeps_items(items: Seq<ItemView>, p: Seq<Dated>)
    requires
        are_items(items, p),
    ensures
        are_items(items, sorted(p)),
{
    broadcast use vstd::seq_lib::group_to_multiset_ensures;

    dated_is_ordered();
    sorted_is_in_order(p);
    let q = sorted(p);
    assert forall|k: int| 0 <= k < q.len() implies ((#[trigger] q[k]).which matches Which::Item(i)
        && i < items.len() && q[k].date == items[i as int].date) by {
        assert(q.to_multiset().count(q[k]) > 0);
        assert(p.to_multiset().count(q[k]) > 0);
        assert(p.contains(q[k]));
        let j = choose|j: int| 0 <= j < p.len() && p[j] == q[k];
        assert(p[j] == q[k]);
    }
}

fn select_one(d: Deed, tty: bool, ts: &Vec<Trash>, c: &Contents, a: &Asked) -> (r: Result<
    Found,
    String,
>)
    requires
        dates_valid(c@.items),
        contents_fit(c@.items, c@.orphans, ts@.len() as int),
    ensures
        match r {
            Ok(f) => selected(d, tty, trash_views(ts@), c@.items, c@.orphans, a.arg@, a.path@)
                == Ok::<FoundView, Seq<char>>(f@),
            Err(e) => selected(d, tty, trash_views(ts@), c@.items, c@.orphans, a.arg@, a.path@)
                == Err::<FoundView, Seq<char>>(e@),
        },
{
    let f = find(ts, c, a.path.as_slice());
    match f {
        Found::Nothing => {
            let mut s = say_cannot(d, a.arg.as_slice());
            s.append("nothing in the trash has this path");
            Err(s)
        },
        Found::One(w) => {
            if let Which::Orphan(_) = w {
                if d == Deed::Restore {
                    let mut s = say_cannot(d, a.arg.as_slice());
                    s.append("its .trashinfo is missing or malformed; use `rip purge` to delete it");
                    return Err(s);
                }
            }
            Ok(Found::One(w))
        },
        Found::Several(v) => {
            if tty {
                return Ok(Found::Several(v));
            }
            proof {
                let n = c.items.len();
                were_at_is_items(c@.items, a.path@, n as int);
                sorted_keeps_items(c@.items, were_at(c@.items, a.path@, n as int));
            }
            let mut s = say_cannot(d, a.arg.as_slice());
            s.append("several trashed items have this path; name one of them:");
            s.append(say_variants(ts, c, &v).as_str());
            Err(s)
        },
    }
}

proof fn selection_error_stays(
    d: Deed,
    tty: bool,
    ts: Seq<TrashView>,
    items: Seq<ItemView>,
    orphans: Seq<OrphanView>,
    asked: Seq<(Seq<u8>, Seq<u8>)>,
    i: int,
    n: int,
)
    requires
        0 <= i <= n,
        selected_all(d, tty, ts, items, orphans, asked, i) is Err,
    ensures
        selected_all(d, tty, ts, items, orphans, asked, n) == selected_all(
            d,
            tty,
            ts,
            items,
            orphans,
            asked,
            i,
        ),
    decreases n - i,
{
    if i < n {
        selection_error_stays(d, tty, ts, items, orphans, asked, i, n - 1);
    }
}

fn select_all(d: Deed, tty: bool, ts: &Vec<Trash>, c: &Contents, asked: &Vec<Asked>) -> (r: Result<
    Vec<Found>,
    String,
>)
    requires
        dates_valid(c@.items),
        contents_fit(c@.items, c@.orphans, ts@.len() as int),
    ensures
        selection_of(r) == selected_all(
            d,
            tty,
            trash_views(ts@),
            c@.items,
            c@.orphans,
            asked_views(asked@),
            asked@.len() as int,
        ),
{
    let ghost dirs = trash_views(ts@);
    let ghost all = asked_views(asked@);
    let mut out: Vec<Found> = Vec::new();
    let mut i: usize = 0;
    assert(found_views(out@) =~= Seq::empty());
    while i < asked.len()
        invariant
            i <= asked.len(),
            dirs == trash_views(ts@),
            all == asked_views(asked@),
            dates_valid(c@.items),
            contents_fit(c@.items, c@.orphans, ts@.len() as int),
            selected_all(d, tty, dirs, c@.items, c@.orphans, all, i as int) == Ok::<
                Seq<FoundView>,
                Seq<char>,
            >(found_views(out@)),
        decreases asked.len() - i,
    {
        assert(all[i as int] == (asked@[i as int].arg@, asked@[i as int].path@));
        let ghost was = found_views(out@);
        match select_one(d, tty, ts, c, &asked[i]) {
            Ok(f) => {
                out.push(f);
                assert(found_views(out@) =~= was.push(f@));
            },
            Err(e) => {
                proof {
                    selection_error_stays(
                        d,
                        tty,
                        dirs,
                        c@.items,
                        c@.orphans,
                        all,
                        i + 1,
                        asked@.len() as int,
                    );
                }
                return Err(e);
            },
        }
        i = i + 1;
    }
    Ok(out)
}

/// What the PATH arguments of `rip restore` select: for each the item, or the
/// items to choose among at the terminal. All are looked up before anything is
/// done; the first that selects nothing is an error.
pub fn restore(ts: &Vec<Trash>, c: &Contents, asked: &Vec<Asked>, tty: bool) -> (r: Result<
    Vec<Found>,
    String,
>)
    requires
        dates_valid(c@.items),
        contents_fit(c@.items, c@.orphans, ts@.len() as int),
    ensures
        selection_of(r) == selected_all(
            Deed::Restore,
            tty,
            trash_views(ts@),
            c@.items,
            c@.orphans,
            asked_views(asked@),
            asked@.len() as int,
        ),
{
    select_all(Deed::Restore, tty, ts, c, asked)
}

/// What the PATH arguments of `rip purge` select. An orphan can be named too,
/// by its place in the trash.
pub fn purge(ts: &Vec<Trash>, c: &Contents, asked: &Vec<Asked>, tty: bool) -> (r: Result<
    Vec<Found>,
    String,
>)
    requires
        dates_valid(c@.items),
        contents_fit(c@.items, c@.orphans, ts@.len() as int),
    ensures
        selection_of(r) == selected_all(
            Deed::Purge,
            tty,
            trash_views(ts@),
            c@.items,
            c@.orphans,
            asked_views(asked@),
            asked@.len() as int,
        ),
{
    select_all(Deed::Purge, tty, ts, c, asked)
}

/// One PATH that selects nothing spoils the whole selection, wherever it stands:
/// nothing is done before every PATH is found.
pub proof fn every_path_must_be_found(
    d: Deed,
    tty: bool,
    ts: Seq<TrashView>,
    items: Seq<ItemView>,
    orphans: Seq<OrphanView>,
    asked: Seq<(Seq<u8>, Seq<u8>)>,
)
    ensures
        selected_all(d, tty, ts, items, orphans, asked, asked.len() as int) is Ok <==> (forall|
            i: int,
        |
            0 <= i < asked.len() ==> selected(
                d,
                tty,
                ts,
                items,
                orphans,
                (#[trigger] asked[i]).0,
                asked[i].1,
            ) is Ok),
{
    every_path_up_to(d, tty, ts, items, orphans, asked, asked.len() as int);
}

proof fn every_path_up_to(
    d: Deed,
    tty: bool,
    ts: Seq<TrashView>,
    items: Seq<ItemView>,
    orphans: Seq<OrphanView>,
    asked: Seq<(Seq<u8>, Seq<u8>)>,
    n: int,
)
    requires
        0 <= n <= asked.len(),
    ensures
        selected_all(d, tty, ts, items, orphans, asked, n) is Ok <==> (forall|i: int|
            0 <= i < n ==> selected(
                d,
                tty,
                ts,
                items,
                orphans,
                (#[trigger] asked[i]).0,
                asked[i].1,
            ) is Ok),
    decreases n,
{
    if n > 0 {
        every_path_up_to(d, tty, ts, items, orphans, asked, n - 1);
    }
}

proof fn lying_is_there(ts: Seq<TrashView>, items: Seq<ItemView>, path: Seq<u8>, i: int)
    requires
        0 <= i,
    ensures
        item_lying(ts, items, path, i) matches Some(k) ==> i <= k < items.len() && lies_at(
            ts,
            items[k].trash,
            items[k].name,
            path,
        ),
    decreases items.len() - i,
{
    if i < items.len() {
        lying_is_there(ts, items, path, i + 1);
    }
}

/// What is restored for a PATH lies at it in a trash directory, or was at it
/// before it was trashed.
pub proof fn selected_items_match(
    tty: bool,
    ts: Seq<TrashView>,
    items: Seq<ItemView>,
    orphans: Seq<OrphanView>,
    arg: Seq<u8>,
    path: Seq<u8>,
)
    requires
        items.len() <= usize::MAX,
    ensures
        match selected(Deed::Restore, tty, ts, items, orphans, arg, path) {
            Ok(FoundView::One(Which::Item(i))) => i < items.len() && (lies_at(
                ts,
                items[i as int].trash,
                items[i as int].name,
                path,
            ) || comps(items[i as int].original) == comps(path)),
            Ok(FoundView::Several(v)) => tty && v.len() > 1 && (forall|k: int|
                0 <= k < v.len() ==> ((#[trigger] v[k]).which matches Which::Item(i) && i
                    < items.len() && comps(items[i as int].original) == comps(path))),
            Ok(_) => false,
            Err(_) => true,
        },
{
    broadcast use vstd::seq_lib::group_to_multiset_ensures;

    lying_is_there(ts, items, path, 0);
    let v = were_at(items, path, items.len() as int);
    were_at_holds(items, path, items.len() as int);
    dated_is_ordered();
    sorted_is_in_order(v);
    if v.len() == 1 {
        assert(v[0].which is Item);
    }
    let q = sorted(v);
    assert forall|k: int| 0 <= k < q.len() implies ((#[trigger] q[k]).which matches Which::Item(i)
        && i < items.len() && comps(items[i as int].original) == comps(path)) by {
        assert(q.to_multiset().count(q[k]) > 0);
        assert(v.to_multiset().count(q[k]) > 0);
        assert(v.contains(q[k]));
        let j = choose|j: int| 0 <= j < v.len() && v[j] == q[k];
        assert(v[j].which is Item);
    }
}

proof fn were_at_holds(items: Seq<ItemView>, path: Seq<u8>, n: int)
    requires
        0 <= n <= items.len(),
        items.len() <= usize::MAX,
    ensures
        forall|k: int|
            0 <= k < were_at(items, path, n).len() ==> ((#[trigger] were_at(
                items,
                path,
                n,
            )[k]).which matches Which::Item(i) && i < items.len() && comps(
                items[i as int].original,
            ) == comps(path)),
    decreases n,
{
    if n > 0 {
        were_at_holds(items, path, n - 1);
    }
}

proof fn none_lies(ts: Seq<TrashView>, items: Seq<ItemView>, path: Seq<u8>, i: int, k: int)
    requires
        0 <= i <= k < items.len(),
        lies_at(ts, items[k].trash, items[k].name, path),
    ensures
        item_lying(ts, items, path, i) is Some,
        item_lying(ts, items, path, i)->0 <= k,
    decreases k - i,
{
    if !lies_at(ts, items[i].trash, items[i].name, path) {
        none_lies(ts, items, path, i + 1, k);
    }
}

proof fn no_orphan_lies(
    ts: Seq<TrashView>,
    orphans: Seq<OrphanView>,
    path: Seq<u8>,
    i: int,
    k: int,
)
    requires
        0 <= i <= k < orphans.len(),
        lies_at(ts, orphans[k].trash, orphans[k].name, path),
    ensures
        orphan_lying(ts, orphans, path, i) is Some,
        orphan_lying(ts, orphans, path, i)->0 <= k,
    decreases k - i,
{
    if !lies_at(ts, orphans[i].trash, orphans[i].name, path) {
        no_orphan_lies(ts, orphans, path, i + 1, k);
    }
}

proof fn orphan_lies(ts: Seq<TrashView>, orphans: Seq<OrphanView>, path: Seq<u8>, i: int)
    requires
        0 <= i,
    ensures
        orphan_lying(ts, orphans, path, i) matches Some(k) ==> i <= k < orphans.len() && lies_at(
            ts,
            orphans[k].trash,
            orphans[k].name,
            path,
        ),
    decreases orphans.len() - i,
{
    if i < orphans.len() {
        orphan_lies(ts, orphans, path, i + 1);
    }
}

proof fn were_at_is_whole(items: Seq<ItemView>, path: Seq<u8>, n: int, d: Dated)
    requires
        0 <= n <= items.len(),
        items.len() <= usize::MAX,
    ensures
        were_at(items, path, n).contains(d) <==> (d.which matches Which::Item(i) && i < n && d.date
            == items[i as int].date && comps(items[i as int].original) == comps(path)),
        were_at(items, path, n).no_duplicates(),
    decreases n,
{
    if n > 0 {
        let front = were_at(items, path, n - 1);
        let s = were_at(items, path, n);
        let x = Dated { date: items[n - 1].date, which: Which::Item((n - 1) as usize) };
        were_at_is_whole(items, path, n - 1, d);
        if comps(items[n - 1].original) == comps(path) {
            were_at_is_whole(items, path, n - 1, x);
            assert(s[front.len() as int] == x);
            if front.contains(d) {
                let k = choose|k: int| 0 <= k < front.len() && front[k] == d;
                assert(s[k] == d);
            }
            if s.contains(d) && !front.contains(d) {
                let k = choose|k: int| 0 <= k < s.len() && s[k] == d;
                assert(k == front.len() || front[k] == d);
            }
            assert forall|i: int, j: int| 0 <= i < j < s.len() implies s[i] != s[j] by {
                assert(front[i] == s[i]);
                if j < front.len() {
                    assert(front[j] == s[j]);
                } else if s[i] == s[j] {
                    assert(front.contains(x));
                }
            }
        }
    }
}

/// What lies in a trash directory at the place that a path names is found for
/// it before anything else: an item, and where no item lies there an orphan.
pub proof fn what_lies_there_is_found(
    ts: Seq<TrashView>,
    items: Seq<ItemView>,
    orphans: Seq<OrphanView>,
    path: Seq<u8>,
)
    requires
        items.len() <= usize::MAX,
        orphans.len() <= usize::MAX,
    ensures
        forall|k: int|
            0 <= k < items.len() && 0 <= (#[trigger] items[k]).trash < ts.len() && comps(
                joined(joined(ts[items[k].trash].path, lit("files")), items[k].name),
            ) == comps(path) ==> (found_at(ts, items, orphans, path) matches FoundView::One(
                Which::Item(i),
            ) && i <= k && 0 <= items[i as int].trash < ts.len() && comps(
                joined(joined(ts[items[i as int].trash].path, lit("files")), items[i as int].name),
            ) == comps(path)),
        forall|k: int|
            0 <= k < orphans.len() && 0 <= (#[trigger] orphans[k]).trash < ts.len() && comps(
                joined(joined(ts[orphans[k].trash].path, lit("files")), orphans[k].name),
            ) == comps(path) ==> match found_at(ts, items, orphans, path) {
                FoundView::One(Which::Item(i)) => i < items.len() && 0 <= items[i as int].trash
                    < ts.len() && comps(
                    joined(
                        joined(ts[items[i as int].trash].path, lit("files")),
                        items[i as int].name,
                    ),
                ) == comps(path),
                FoundView::One(Which::Orphan(i)) => i <= k && 0 <= orphans[i as int].trash
                    < ts.len() && comps(
                    joined(
                        joined(ts[orphans[i as int].trash].path, lit("files")),
                        orphans[i as int].name,
                    ),
                ) == comps(path),
                _ => false,
            },
{
    lying_is_there(ts, items, path, 0);
    orphan_lies(ts, orphans, path, 0);
    assert forall|k: int|
        0 <= k < items.len() && 0 <= (#[trigger] items[k]).trash < ts.len() && comps(
            joined(joined(ts[items[k].trash].path, lit("files")), items[k].name),
        ) == comps(path) implies item_lying(ts, items, path, 0) is Some && item_lying(
        ts,
        items,
        path,
        0,
    )->0 <= k by {
        none_lies(ts, items, path, 0, k);
    }
    assert forall|k: int|
        0 <= k < orphans.len() && 0 <= (#[trigger] orphans[k]).trash < ts.len() && comps(
            joined(joined(ts[orphans[k].trash].path, lit("files")), orphans[k].name),
        ) == comps(path) implies orphan_lying(ts, orphans, path, 0) is Some && orphan_lying(
        ts,
        orphans,
        path,
        0,
    )->0 <= k by {
        no_orphan_lies(ts, orphans, path, 0, k);
    }
}

/// Where nothing lies at a path, every item that was there before it was
/// trashed is found for it, in whichever trash directory it is: a single one by
/// itself, several together, each once, the oldest first. Nothing is found only
/// where no item was there.
pub proof fn whatever_was_there_is_found(
    ts: Seq<TrashView>,
    items: Seq<ItemView>,
    orphans: Seq<OrphanView>,
    path: Seq<u8>,
)
    requires
        items.len() <= usize::MAX,
        forall|k: int|
            0 <= k < items.len() && 0 <= (#[trigger] items[k]).trash < ts.len() ==> comps(
                joined(joined(ts[items[k].trash].path, lit("files")), items[k].name),
            ) != comps(path),
        forall|k: int|
            0 <= k < orphans.len() && 0 <= (#[trigger] orphans[k]).trash < ts.len() ==> comps(
                joined(joined(ts[orphans[k].trash].path, lit("files")), orphans[k].name),
            ) != comps(path),
    ensures
        match found_at(ts, items, orphans, path) {
            FoundView::Nothing => forall|k: int|
                0 <= k < items.len() ==> comps((#[trigger] items[k]).original) != comps(path),
            FoundView::One(Which::Item(i)) => i < items.len() && (forall|k: int|
                0 <= k < items.len() ==> (comps((#[trigger] items[k]).original) == comps(path)
                    <==> k == i)),
            FoundView::One(Which::Orphan(_)) => false,
            FoundView::Several(v) => v.len() >= 2 && v.no_duplicates() && (forall|k: int|
                0 <= k < items.len() && comps((#[trigger] items[k]).original) == comps(path)
                    ==> v.contains(Dated { date: items[k].date, which: Which::Item(k as usize) }))
                && (forall|j: int|
                0 <= j < v.len() ==> ((#[trigger] v[j]).which matches Which::Item(i) && i
                    < items.len() && v[j].date == items[i as int].date && comps(
                    items[i as int].original,
                ) == comps(path))) && (forall|i: int, j: int|
                #![trigger v[i], v[j]]
                0 <= i < j < v.len() ==> !v[j].date.earlier(v[i].date)),
        },
{
    lying_is_there(ts, items, path, 0);
    orphan_lies(ts, orphans, path, 0);
    let n = items.len() as int;
    let v = were_at(items, path, n);
    assert forall|k: int|
        0 <= k < items.len() && comps(
            (#[trigger] items[k]).original,
        ) == comps(path) implies v.contains(
        Dated { date: items[k].date, which: Which::Item(k as usize) },
    ) by {
        were_at_is_whole(
            items,
            path,
            n,
            Dated { date: items[k].date, which: Which::Item(k as usize) },
        );
    }
    assert forall|d: Dated| #[trigger] v.contains(d) implies (d.which matches Which::Item(i) && i
        < items.len() && d.date == items[i as int].date && comps(items[i as int].original) == comps(
        path,
    )) by {
        were_at_is_whole(items, path, n, d);
    }
    were_at_is_whole(items, path, n, arbitrary());
    sorted_repeats_nothing(v);
    if v.len() == 1 {
        assert(v.contains(v[0]));
        let i = v[0].which->Item_0;
        assert forall|k: int| 0 <= k < items.len() implies (comps((#[trigger] items[k]).original)
            == comps(path) <==> k == i) by {
            if comps(items[k].original) == comps(path) {
                let d = Dated { date: items[k].date, which: Which::Item(k as usize) };
                assert(v.contains(d));
                let j = choose|j: int| 0 <= j < v.len() && v[j] == d;
                assert(j == 0);
            }
        }
    } else if v.len() >= 2 {
        let q = sorted(v);
        assert forall|j: int| 0 <= j < q.len() implies ((#[trigger] q[j]).which matches Which::Item(
            i,
        ) && i < items.len() && q[j].date == items[i as int].date && comps(
            items[i as int].original,
        ) == comps(path)) by {
            assert(q.contains(q[j]));
        }
    }
}

/// Whatever is found for a PATH is selected, but for an orphan that is to be
/// restored, and for several items where nobody can be asked. What is refused
/// is refused by name.
pub proof fn what_is_found_is_selected(
    d: Deed,
    tty: bool,
    ts: Seq<TrashView>,
    items: Seq<ItemView>,
    orphans: Seq<OrphanView>,
    arg: Seq<u8>,
    path: Seq<u8>,
)
    ensures
        ({
            let word = if d is Restore {
                "restore"@
            } else {
                "delete"@
            };
            let begin = "cannot "@ + word + " '"@ + escaped(arg) + "': "@;
            let s = selected(d, tty, ts, items, orphans, arg, path);
            match found_at(ts, items, orphans, path) {
                FoundView::Nothing => s == Err::<FoundView, Seq<char>>(
                    begin + "nothing in the trash has this path"@,
                ),
                FoundView::One(Which::Item(i)) => s == Ok::<FoundView, Seq<char>>(
                    FoundView::One(Which::Item(i)),
                ),
                FoundView::One(Which::Orphan(i)) => if d is Purge {
                    s == Ok::<FoundView, Seq<char>>(FoundView::One(Which::Orphan(i)))
                } else {
                    s == Err::<FoundView, Seq<char>>(
                        begin
                            + "its .trashinfo is missing or malformed; use `rip purge` to delete it"@,
                    )
                },
                FoundView::Several(v) => if tty {
                    s == Ok::<FoundView, Seq<char>>(FoundView::Several(v))
                } else {
                    s == Err::<FoundView, Seq<char>>(
                        begin + "several trashed items have this path; name one of them:"@
                            + Seq::new(
                            v.len(),
                            |k: int|
                                "\n  "@ + stamp(' ', v[k].date) + "  "@ + escaped(
                                    joined(
                                        joined(
                                            ts[items[v[k].which->Item_0 as int].trash].path,
                                            lit("files"),
                                        ),
                                        items[v[k].which->Item_0 as int].name,
                                    ),
                                ),
                        ).flatten(),
                    )
                },
            }
        }),
{
    if let FoundView::Several(v) = found_at(ts, items, orphans, path) {
        variants_are_lines(ts, items, v, v.len() as int);
        let all = Seq::new(
            v.len(),
            |k: int|
                "\n  "@ + stamp(' ', v[k].date) + "  "@ + escaped(
                    joined(
                        joined(ts[items[v[k].which->Item_0 as int].trash].path, lit("files")),
                        items[v[k].which->Item_0 as int].name,
                    ),
                ),
        );
        assert(all =~= variant_lines(ts, items, v, v.len() as int));
    }
}

spec fn variant_lines(
    ts: Seq<TrashView>,
    items: Seq<ItemView>,
    v: Seq<Dated>,
    n: int,
) -> Seq<Seq<char>> {
    Seq::new(
        n as nat,
        |k: int|
            "\n  "@ + stamp(' ', v[k].date) + "  "@ + escaped(
                joined(
                    joined(ts[items[v[k].which->Item_0 as int].trash].path, lit("files")),
                    items[v[k].which->Item_0 as int].name,
                ),
            ),
    )
}

proof fn variants_are_lines(ts: Seq<TrashView>, items: Seq<ItemView>, v: Seq<Dated>, n: int)
    requires
        0 <= n,
    ensures
        variants(ts, items, v, n) == variant_lines(ts, items, v, n).flatten(),
    decreases n,
{
    let all = variant_lines(ts, items, v, n);
    if n > 0 {
        variants_are_lines(ts, items, v, n - 1);
        let front = variant_lines(ts, items, v, n - 1);
        assert(all.drop_last() =~= front);
        all.lemma_flatten_and_flatten_alt_are_equivalent();
        front.lemma_flatten_and_flatten_alt_are_equivalent();
        assert(variants(ts, items, v, n) =~= front.flatten() + all.last());
    }
}

/// The selection for several PATHs is what each selects by itself, in their
/// order; what is complained of is the first that selects nothing.
pub proof fn each_path_selects_for_itself(
    d: Deed,
    tty: bool,
    ts: Seq<TrashView>,
    items: Seq<ItemView>,
    orphans: Seq<OrphanView>,
    asked: Seq<(Seq<u8>, Seq<u8>)>,
)
    ensures
        match selected_all(d, tty, ts, items, orphans, asked, asked.len() as int) {
            Ok(v) => v.len() == asked.len() && (forall|i: int|
                0 <= i < asked.len() ==> selected(
                    d,
                    tty,
                    ts,
                    items,
                    orphans,
                    (#[trigger] asked[i]).0,
                    asked[i].1,
                ) == Ok::<FoundView, Seq<char>>(v[i])),
            Err(e) => exists|i: int|
                0 <= i < asked.len() && selected(
                    d,
                    tty,
                    ts,
                    items,
                    orphans,
                    (#[trigger] asked[i]).0,
                    asked[i].1,
                ) == Err::<FoundView, Seq<char>>(e) && (forall|j: int|
                    0 <= j < i ==> selected(
                        d,
                        tty,
                        ts,
                        items,
                        orphans,
                        (#[trigger] asked[j]).0,
                        asked[j].1,
                    ) is Ok),
        },
{
    each_path_up_to(d, tty, ts, items, orphans, asked, asked.len() as int);
}

proof fn each_path_up_to(
    d: Deed,
    tty: bool,
    ts: Seq<TrashView>,
    items: Seq<ItemView>,
    orphans: Seq<OrphanView>,
    asked: Seq<(Seq<u8>, Seq<u8>)>,
    n: int,
)
    requires
        0 <= n <= asked.len(),
    ensures
        match selected_all(d, tty, ts, items, orphans, asked, n) {
            Ok(v) => v.len() == n && (forall|i: int|
                0 <= i < n ==> selected(
                    d,
                    tty,
                    ts,
                    items,
                    orphans,
                    (#[trigger] asked[i]).0,
                    asked[i].1,
                ) == Ok::<FoundView, Seq<char>>(v[i])),
            Err(e) => exists|i: int|
                0 <= i < n && selected(
                    d,
                    tty,
                    ts,
                    items,
                    orphans,
                    (#[trigger] asked[i]).0,
                    asked[i].1,
                ) == Err::<FoundView, Seq<char>>(e) && (forall|j: int|
                    0 <= j < i ==> selected(
                        d,
                        tty,
                        ts,
                        items,
                        orphans,
                        (#[trigger] asked[j]).0,
                        asked[j].1,
                    ) is Ok),
        },
    decreases n,
{
    if n > 0 {
        each_path_up_to(d, tty, ts, items, orphans, asked, n - 1);
        if selected_all(d, tty, ts, items, orphans, asked, n - 1) is Ok {
            let x = asked[n - 1];
            every_path_up_to(d, tty, ts, items, orphans, asked, n - 1);
        }
    }
}

// ---------------------------------------------------------------------------
// The order of a batch
// ---------------------------------------------------------------------------

/// An item by how deep its original path lies.
#[derive(Clone, Copy, PartialEq, Eq, Debug, Structural)]
pub struct Placed {
    pub depth: usize,
    pub item: usize,
}

impl Ordered for Placed {
    /// The deepest last.
    open spec fn after(self, other: Placed) -> bool {
        self.depth > other.depth
    }

    fn is_after(&self, other: &Placed) -> (r: bool) {
        self.depth > other.depth
    }
}

/// A list without what was in it before.
pub open spec fn once(p: Seq<usize>) -> Seq<usize>
    decreases p.len(),
{
    if p.len() == 0 {
        p
    } else {
        let front = once(p.drop_last());
        if front.contains(p.last()) {
            front
        } else {
            front.push(p.last())
        }
    }
}

/// Items with their depths.
pub open spec fn placed(items: Seq<ItemView>, p: Seq<usize>) -> Seq<Placed> {
    Seq::new(
        p.len(),
        |k: int| Placed { depth: comps(items[p[k] as int].original).len() as usize, item: p[k] },
    )
}

/// The order in which items are restored: parents before what is inside them,
/// each item once.
pub open spec fn batch_order(items: Seq<ItemView>, p: Seq<usize>) -> Seq<usize> {
    let s = sorted(placed(items, once(p)));
    Seq::new(s.len(), |k: int| s[k].item)
}

fn is_in(v: &Vec<usize>, x: usize) -> (r: bool)
    ensures
        r == v@.contains(x),
{
    let mut i: usize = 0;
    while i < v.len()
        invariant
            i <= v.len(),
            forall|k: int| 0 <= k < i ==> v@[k] != x,
        decreases v.len() - i,
    {
        if v[i] == x {
            return true;
        }
        i = i + 1;
    }
    false
}

fn drop_repeated(p: &Vec<usize>) -> (v: Vec<usize>)
    ensures
        v@ == once(p@),
{
    let mut v: Vec<usize> = Vec::new();
    let mut i: usize = 0;
    assert(p@.take(0) =~= Seq::empty());
    assert(v@ =~= once(p@.take(0)));
    while i < p.len()
        invariant
            i <= p.len(),
            v@ == once(p@.take(i as int)),
        decreases p.len() - i,
    {
        assert(p@.take(i + 1).drop_last() =~= p@.take(i as int));
        if !is_in(&v, p[i]) {
            v.push(p[i]);
        }
        i = i + 1;
    }
    assert(p@.take(p@.len() as int) =~= p@);
    v
}

proof fn once_keeps(p: Seq<usize>, x: usize)
    ensures
        once(p).contains(x) <==> p.contains(x),
        once(p).no_duplicates(),
    decreases p.len(),
{
    if p.len() > 0 {
        let front = once(p.drop_last());
        once_keeps(p.drop_last(), x);
        assert(p.drop_last().push(p.last()) =~= p);
        if p.contains(x) && x != p.last() {
            let i = choose|i: int| 0 <= i < p.len() && p[i] == x;
            assert(p.drop_last()[i] == x);
        }
        if p.drop_last().contains(x) {
            let i = choose|i: int| 0 <= i < p.drop_last().len() && p.drop_last()[i] == x;
            assert(p[i] == x);
        }
        if !front.contains(p.last()) {
            let all = front.push(p.last());
            assert(all[front.len() as int] == p.last());
            assert(p[p.len() - 1] == p.last());
            if front.contains(x) {
                let i = choose|i: int| 0 <= i < front.len() && front[i] == x;
                assert(all[i] == x);
            }
            if all.contains(x) && x != p.last() {
                let i = choose|i: int| 0 <= i < all.len() && all[i] == x;
                assert(front[i] == x);
            }
            assert forall|i: int, j: int| 0 <= i < j < all.len() implies all[i] != all[j] by {
                if j == front.len() {
                    assert(front[i] == all[i]);
                    assert(front.contains(front[i]));
                }
            }
        }
    }
}

/// Puts the picked items into the order in which they are restored.
pub fn parents_first(c: &Contents, picks: &Vec<usize>) -> (v: Vec<usize>)
    requires
        forall|k: int| 0 <= k < picks@.len() ==> #[trigger] picks@[k] < c@.items.len(),
    ensures
        v@ == batch_order(c@.items, picks@),
{
    let ghost items = c@.items;
    let p = drop_repeated(picks);
    let mut s: Vec<Placed> = Vec::new();
    let mut i: usize = 0;
    while i < p.len()
        invariant
            i <= p.len(),
            items == c@.items,
            p@ == once(picks@),
            forall|k: int| 0 <= k < picks@.len() ==> #[trigger] picks@[k] < items.len(),
            s@ =~= placed(items, p@).take(i as int),
        decreases p.len() - i,
    {
        proof {
            once_keeps(picks@, p@[i as int]);
            assert(p@.contains(p@[i as int]));
            let j = choose|j: int| 0 <= j < picks@.len() && picks@[j] == p@[i as int];
            assert(picks@[j] < items.len());
        }
        let n: usize = p[i];
        assert(n < c.items.len());
        let it = &c.items[n];
        assert(items[n as int] == it@);
        let d = components(it.original.as_slice());
        let depth: usize = d.len();
        s.push(Placed { depth, item: n });
        i = i + 1;
    }
    assert(placed(items, p@).take(p@.len() as int) =~= placed(items, p@));
    proof {
        placed_is_ordered();
    }
    sort(&mut s);
    let mut v: Vec<usize> = Vec::new();
    let mut k: usize = 0;
    while k < s.len()
        invariant
            k <= s.len(),
            v@.len() == k,
            forall|j: int| 0 <= j < k ==> #[trigger] v@[j] == s@[j].item,
        decreases s.len() - k,
    {
        v.push(s[k].item);
        k = k + 1;
    }
    assert(v@ =~= batch_order(items, picks@));
    v
}

/// An original path lies inside another.
pub open spec fn strictly_inside(a: Seq<u8>, b: Seq<u8>) -> bool {
    under(comps(a), comps(b)) && comps(a).len() > comps(b).len()
}

proof fn placed_is_ordered()
    ensures
        is_order::<Placed>(),
{
}

#[verifier::spinoff_prover]
#[verifier::rlimit(40)]
proof fn batch_positions(items: Seq<ItemView>, p: Seq<usize>)
    requires
        forall|i: int| 0 <= i < items.len() ==> comps((#[trigger] items[i]).original).len()
            <= usize::MAX,
        forall|k: int| 0 <= k < p.len() ==> #[trigger] p[k] < items.len(),
    ensures
        ({
            let b = batch_order(items, p);
            &&& forall|x: usize| #[trigger] b.contains(x) <==> p.contains(x)
            &&& b.no_duplicates()
            &&& forall|i: int, j: int|
                #![trigger b[i], b[j]]
                0 <= i < j < b.len() ==> comps(items[b[i] as int].original).len() <= comps(
                    items[b[j] as int].original,
                ).len()
        }),
{
    broadcast use vstd::seq_lib::group_to_multiset_ensures;

    let o = once(p);
    let q = placed(items, o);
    let s = sorted(q);
    let b = batch_order(items, p);
    placed_is_ordered();
    sorted_is_in_order(q);
    once_keeps(p, 0);
    assert forall|k: int| 0 <= k < s.len() implies exists|j: int|
        0 <= j < q.len() && q[j] == #[trigger] s[k] by {
        assert(s.to_multiset().count(s[k]) > 0);
        assert(q.to_multiset().count(s[k]) > 0);
        assert(q.contains(s[k]));
    }
    assert forall|k: int| 0 <= k < q.len() implies exists|j: int|
        0 <= j < s.len() && s[j] == #[trigger] q[k] by {
        assert(q.to_multiset().count(q[k]) > 0);
        assert(s.to_multiset().count(q[k]) > 0);
        assert(s.contains(q[k]));
    }
    assert forall|x: usize| #[trigger] b.contains(x) <==> p.contains(x) by {
        once_keeps(p, x);
        if b.contains(x) {
            let k = choose|k: int| 0 <= k < b.len() && b[k] == x;
            let j = choose|j: int| 0 <= j < q.len() && q[j] == s[k];
            assert(o[j] == x);
        }
        if o.contains(x) {
            let j = choose|j: int| 0 <= j < o.len() && o[j] == x;
            let k = choose|k: int| 0 <= k < s.len() && s[k] == q[j];
            assert(b[k] == x);
        }
    }
    assert forall|i: int, j: int|
        #![trigger b[i], b[j]]
        0 <= i < j < b.len() implies comps(items[b[i] as int].original).len() <= comps(
        items[b[j] as int].original,
    ).len() by {
        assert(!s[i].after(s[j]));
        let x = choose|x: int| 0 <= x < q.len() && q[x] == s[i];
        let y = choose|y: int| 0 <= y < q.len() && q[y] == s[j];
        once_keeps(p, o[x]);
        once_keeps(p, o[y]);
        assert(o.contains(o[x]) && o.contains(o[y]));
        let m = choose|m: int| 0 <= m < p.len() && p[m] == o[x];
        let n = choose|n: int| 0 <= n < p.len() && p[n] == o[y];
        assert(p[m] < items.len() && p[n] < items.len());
    }
    assert(b.no_duplicates()) by {
        assert(q.no_duplicates()) by {
            assert forall|i: int, j: int| 0 <= i < j < q.len() implies q[i] != q[j] by {
                assert(o[i] != o[j]);
            }
        }
        q.lemma_multiset_has_no_duplicates();
        s.lemma_multiset_has_no_duplicates_conv();
        assert forall|i: int, j: int| 0 <= i < j < b.len() implies b[i] != b[j] by {
            let x = choose|x: int| 0 <= x < q.len() && q[x] == s[i];
            let y = choose|y: int| 0 <= y < q.len() && q[y] == s[j];
            assert(s[i] != s[j]);
            assert(x != y);
            assert(o[x] != o[y]);
        }
    }
}

/// Just the picked items are restored, each once, and no item before one that
/// it lies inside of.
pub proof fn parents_come_first(items: Seq<ItemView>, p: Seq<usize>)
    requires
        forall|i: int| 0 <= i < items.len() ==> comps((#[trigger] items[i]).original).len()
            <= usize::MAX,
        forall|k: int| 0 <= k < p.len() ==> #[trigger] p[k] < items.len(),
    ensures
        ({
            let b = batch_order(items, p);
            &&& forall|x: usize| #[trigger] b.contains(x) <==> p.contains(x)
            &&& b.no_duplicates()
            &&& forall|i: int, j: int|
                #![trigger b[i], b[j]]
                0 <= i < j < b.len() ==> !strictly_inside(
                    items[b[i] as int].original,
                    items[b[j] as int].original,
                ) && comps(items[b[i] as int].original).len() <= comps(
                    items[b[j] as int].original,
                ).len()
        }),
{
    batch_positions(items, p);
}

// ---------------------------------------------------------------------------
// undo
// ---------------------------------------------------------------------------

/// The newest date of the first `n` items.
pub open spec fn newest(items: Seq<ItemView>, n: int) -> Option<DateTime>
    decreases n,
{
    if n <= 0 {
        None
    } else {
        match newest(items, n - 1) {
            None => Some(items[n - 1].date),
            Some(d) => if d.earlier(items[n - 1].date) {
                Some(items[n - 1].date)
            } else {
                Some(d)
            },
        }
    }
}

/// Those of the first `n` items that have this date.
pub open spec fn with_date(items: Seq<ItemView>, d: DateTime, n: int) -> Seq<usize>
    decreases n,
{
    if n <= 0 {
        Seq::empty()
    } else {
        let front = with_date(items, d, n - 1);
        if items[n - 1].date == d {
            front.push((n - 1) as usize)
        } else {
            front
        }
    }
}

proof fn with_date_bounds(items: Seq<ItemView>, d: DateTime, n: int)
    requires
        0 <= n <= items.len(),
        items.len() <= usize::MAX,
    ensures
        forall|k: int| 0 <= k < with_date(items, d, n).len() ==> #[trigger] with_date(
            items,
            d,
            n,
        )[k] < n && items[with_date(items, d, n)[k] as int].date == d,
    decreases n,
{
    if n > 0 {
        with_date_bounds(items, d, n - 1);
        let front = with_date(items, d, n - 1);
        let all = with_date(items, d, n);
        assert forall|k: int| 0 <= k < all.len() implies #[trigger] all[k] < n
            && items[all[k] as int].date == d by {
            if k < front.len() {
                assert(all[k] == front[k]);
            }
        }
    }
}

/// What `rip undo` restores: the items of the newest date, parents first.
pub fn undo(c: &Contents) -> (r: Result<Vec<usize>, &'static str>)
    ensures
        r is Err <==> c@.items.len() == 0,
        match newest(c@.items, c@.items.len() as int) {
            None => r matches Err(e) && e@ == "nothing to undo"@,
            Some(d) => r matches Ok(v) && v@ == batch_order(
                c@.items,
                with_date(c@.items, d, c@.items.len() as int),
            ),
        },
{
    let ghost items = c@.items;
    let mut best: Option<DateTime> = None;
    let mut i: usize = 0;
    while i < c.items.len()
        invariant
            i <= c.items.len(),
            items == c@.items,
            best == newest(items, i as int),
        decreases c.items.len() - i,
    {
        let it = &c.items[i];
        assert(items[i as int] == it@);
        best = match best {
            None => Some(it.date),
            Some(d) => {
                if d.is_before(&it.date) {
                    Some(it.date)
                } else {
                    Some(d)
                }
            },
        };
        i = i + 1;
    }
    proof {
        newest_is_newest(items, items.len() as int);
    }
    let d = match best {
        None => return Err("nothing to undo"),
        Some(d) => d,
    };
    let mut picks: Vec<usize> = Vec::new();
    let mut k: usize = 0;
    while k < c.items.len()
        invariant
            k <= c.items.len(),
            items == c@.items,
            picks@ == with_date(items, d, k as int),
        decreases c.items.len() - k,
    {
        let it = &c.items[k];
        assert(items[k as int] == it@);
        if it.date == d {
            picks.push(k);
        }
        k = k + 1;
    }
    proof {
        with_date_bounds(items, d, items.len() as int);
    }
    Ok(parents_first(c, &picks))
}

proof fn newest_is_newest(items: Seq<ItemView>, n: int)
    requires
        0 <= n <= items.len(),
    ensures
        newest(items, n) is None <==> n == 0,
        newest(items, n) matches Some(d) ==> (forall|i: int|
            0 <= i < n ==> !d.earlier((#[trigger] items[i]).date)) && (exists|i: int|
            0 <= i < n && (#[trigger] items[i]).date == d),
    decreases n,
{
    if n > 0 {
        newest_is_newest(items, n - 1);
        if let Some(d) = newest(items, n - 1) {
            let e = items[n - 1].date;
            time_is_ordered(e, e, e);
            assert forall|i: int| 0 <= i < n implies !newest(items, n)->0.earlier(
                (#[trigger] items[i]).date,
            ) by {
                time_is_ordered(d, e, items[i].date);
                time_is_ordered(e, d, items[i].date);
                time_is_ordered(e, items[i].date, d);
                time_is_ordered(d, items[i].date, e);
                time_is_ordered(items[i].date, e, d);
                time_is_ordered(items[i].date, d, e);
            }
            let i = choose|i: int| 0 <= i < n - 1 && (#[trigger] items[i]).date == d;
            assert(items[i].date == d);
            assert(items[n - 1].date == e);
        } else {
            time_is_ordered(items[n - 1].date, items[n - 1].date, items[n - 1].date);
            assert(items[n - 1].date == newest(items, n)->0);
        }
    }
}

proof fn with_date_holds(items: Seq<ItemView>, d: DateTime, n: int, i: usize)
    requires
        0 <= n <= items.len(),
        items.len() <= usize::MAX,
    ensures
        with_date(items, d, n).contains(i) <==> i < n && items[i as int].date == d,
    decreases n,
{
    if n > 0 {
        with_date_holds(items, d, n - 1, i);
        let front = with_date(items, d, n - 1);
        let all = with_date(items, d, n);
        if front.contains(i) {
            let k = choose|k: int| 0 <= k < front.len() && front[k] == i;
            assert(all[k] == i);
        }
        if items[n - 1].date == d {
            assert(all[front.len() as int] == (n - 1) as usize);
            if all.contains(i) && !front.contains(i) {
                let k = choose|k: int| 0 <= k < all.len() && all[k] == i;
                assert(k == front.len() || front[k] == i);
            }
        }
    }
}

/// `undo` brings back just the items of one date, and no item has a later one.
pub proof fn undo_takes_the_newest(items: Seq<ItemView>, i: usize)
    requires
        items.len() <= usize::MAX,
        items.len() > 0,
        forall|k: int| 0 <= k < items.len() ==> comps((#[trigger] items[k]).original).len()
            <= usize::MAX,
    ensures
        newest(items, items.len() as int) matches Some(d) && (batch_order(
            items,
            with_date(items, d, items.len() as int),
        ).contains(i) <==> i < items.len() && items[i as int].date == d) && (forall|j: int|
            0 <= j < items.len() ==> !d.earlier((#[trigger] items[j]).date)) && (exists|j: int|
            0 <= j < items.len() && (#[trigger] items[j]).date == d),
{
    newest_is_newest(items, items.len() as int);
    let d = newest(items, items.len() as int)->0;
    with_date_bounds(items, d, items.len() as int);
    with_date_holds(items, d, items.len() as int, i);
    batch_positions(items, with_date(items, d, items.len() as int));
}

/// What is printed for a restored item: where it is now.
pub fn restored_line(dest: &[u8], cwd: &[u8]) -> (s: String)
    ensures
        s@ == escaped(shown_as(dest@, cwd@)) + "\n"@,
{
    let mut s = escape(shown_path(dest, cwd).as_slice());
    s.append("\n");
    s
}

// ---------------------------------------------------------------------------
// purge
// ---------------------------------------------------------------------------

/// How many entries the question before a purge names.
pub const NAMED: usize = 20;

/// Entries are among the items and orphans.
pub open spec fn are_entries(items: Seq<ItemView>, orphans: Seq<OrphanView>, p: Seq<Which>) -> bool {
    forall|k: int|
        0 <= k < p.len() ==> match #[trigger] p[k] {
            Which::Item(i) => i < items.len(),
            Which::Orphan(i) => i < orphans.len(),
        }
}

/// An entry as a purge shows it: where it was, or for an orphan where it is.
pub open spec fn entry_shown(
    ts: Seq<TrashView>,
    items: Seq<ItemView>,
    orphans: Seq<OrphanView>,
    cwd: Seq<u8>,
    w: Which,
) -> Seq<u8> {
    match w {
        Which::Item(i) => shown_as(items[i as int].original, cwd),
        Which::Orphan(i) => shown_as(
            trash_path_of(ts[orphans[i as int].trash].path, orphans[i as int].name),
            cwd,
        ),
    }
}

/// The lines for the first `n` entries.
pub open spec fn purge_lines(
    ts: Seq<TrashView>,
    items: Seq<ItemView>,
    orphans: Seq<OrphanView>,
    cwd: Seq<u8>,
    p: Seq<Which>,
    n: int,
) -> Seq<char>
    decreases n,
{
    if n <= 0 {
        Seq::empty()
    } else {
        purge_lines(ts, items, orphans, cwd, p, n - 1) + "  "@ + escaped(
            entry_shown(ts, items, orphans, cwd, p[n - 1]),
        ) + "\n"@
    }
}

/// What is listed before the question.
pub open spec fn purge_list(
    ts: Seq<TrashView>,
    items: Seq<ItemView>,
    orphans: Seq<OrphanView>,
    cwd: Seq<u8>,
    p: Seq<Which>,
) -> Seq<char> {
    if p.len() <= NAMED {
        purge_lines(ts, items, orphans, cwd, p, p.len() as int)
    } else {
        purge_lines(ts, items, orphans, cwd, p, NAMED as int) + "  and "@ + decimal(
            (p.len() - NAMED) as nat,
        ) + " more\n"@
    }
}

fn show_entry(ts: &Vec<Trash>, c: &Contents, cwd: &[u8], w: Which) -> (r: Vec<u8>)
    requires
        are_entries(c@.items, c@.orphans, seq![w]),
        contents_fit(c@.items, c@.orphans, ts@.len() as int),
    ensures
        r@ == entry_shown(trash_views(ts@), c@.items, c@.orphans, cwd@, w),
{
    assert(seq![w][0] == w);
    match w {
        Which::Item(i) => {
            assert(c@.items[i as int] == c.items@[i as int]@);
            shown_path(c.items[i].original.as_slice(), cwd)
        },
        Which::Orphan(i) => {
            let o = &c.orphans[i];
            assert(c@.orphans[i as int] == o@);
            assert(trash_views(ts@)[o.trash as int] == ts@[o.trash as int]@);
            shown_path(trash_path(&ts[o.trash], o.name.as_slice()).as_slice(), cwd)
        },
    }
}

/// Lists what is about to be purged: the first twenty entries, and how many
/// more there are.
pub fn purge_listing(ts: &Vec<Trash>, c: &Contents, cwd: &[u8], p: &Vec<Which>) -> (s: String)
    requires
        are_entries(c@.items, c@.orphans, p@),
        contents_fit(c@.items, c@.orphans, ts@.len() as int),
    ensures
        s@ == purge_list(trash_views(ts@), c@.items, c@.orphans, cwd@, p@),
{
    let ghost dirs = trash_views(ts@);
    let mut s = String::new();
    let n: usize = if p.len() < NAMED {
        p.len()
    } else {
        NAMED
    };
    let mut i: usize = 0;
    assert(s@ =~= Seq::empty());
    while i < n
        invariant
            i <= n <= p.len(),
            dirs == trash_views(ts@),
            are_entries(c@.items, c@.orphans, p@),
            contents_fit(c@.items, c@.orphans, ts@.len() as int),
            s@ == purge_lines(dirs, c@.items, c@.orphans, cwd@, p@, i as int),
        decreases n - i,
    {
        let w: Which = p[i];
        assert(are_entries(c@.items, c@.orphans, seq![w])) by {
            assert(p@[i as int] == w);
        }
        s.append("  ");
        s.append(escape(show_entry(ts, c, cwd, w).as_slice()).as_str());
        s.append("\n");
        i = i + 1;
    }
    if p.len() > NAMED {
        s.append("  and ");
        s.append(number((p.len() - NAMED) as u64).as_str());
        s.append(" more\n");
    }
    s
}

/// The question before a purge.
pub fn purge_question(n: usize) -> (s: String)
    ensures
        s@ == "permanently delete "@ + decimal(n as nat) + (if n == 1 {
            " item?"@
        } else {
            " items?"@
        }),
{
    let mut s = String::from_str("permanently delete ");
    s.append(number(n as u64).as_str());
    if n == 1 {
        s.append(" item?");
    } else {
        s.append(" items?");
    }
    s
}

/// A list of entries without what was in it before.
pub open spec fn entries_once(p: Seq<Which>) -> Seq<Which>
    decreases p.len(),
{
    if p.len() == 0 {
        p
    } else {
        let front = entries_once(p.drop_last());
        if front.contains(p.last()) {
            front
        } else {
            front.push(p.last())
        }
    }
}

/// Drops what was picked twice.
pub fn picked_once(p: &Vec<Which>) -> (v: Vec<Which>)
    ensures
        v@ == entries_once(p@),
{
    let mut v: Vec<Which> = Vec::new();
    let mut i: usize = 0;
    assert(p@.take(0) =~= Seq::empty());
    assert(v@ =~= entries_once(p@.take(0)));
    while i < p.len()
        invariant
            i <= p.len(),
            v@ == entries_once(p@.take(i as int)),
        decreases p.len() - i,
    {
        assert(p@.take(i + 1).drop_last() =~= p@.take(i as int));
        let mut k: usize = 0;
        while k < v.len() && v[k] != p[i]
            invariant
                i < p.len(),
                k <= v.len(),
                forall|j: int| 0 <= j < k ==> v@[j] != p@[i as int],
            decreases v.len() - k,
        {
            k = k + 1;
        }
        if k == v.len() {
            v.push(p[i]);
        } else {
            assert(v@.contains(p@[i as int]));
        }
        i = i + 1;
    }
    assert(p@.take(p@.len() as int) =~= p@);
    v
}

/// The trash directory of an entry.
pub open spec fn trash_of(items: Seq<ItemView>, orphans: Seq<OrphanView>, w: Which) -> int {
    match w {
        Which::Item(i) => items[i as int].trash,
        Which::Orphan(i) => orphans[i as int].trash,
    }
}

/// The entries of one trash directory.
pub open spec fn of_trash(
    items: Seq<ItemView>,
    orphans: Seq<OrphanView>,
    p: Seq<Which>,
    t: int,
) -> Seq<Which>
    decreases p.len(),
{
    if p.len() == 0 {
        Seq::empty()
    } else {
        let front = of_trash(items, orphans, p.drop_last(), t);
        if trash_of(items, orphans, p.last()) == t {
            front.push(p.last())
        } else {
            front
        }
    }
}

/// The entries to purge in the `t`th trash directory.
pub fn purge_group(c: &Contents, p: &Vec<Which>, t: usize) -> (v: Vec<Which>)
    requires
        are_entries(c@.items, c@.orphans, p@),
    ensures
        v@ == of_trash(c@.items, c@.orphans, p@, t as int),
{
    let mut v: Vec<Which> = Vec::new();
    let mut i: usize = 0;
    assert(p@.take(0) =~= Seq::empty());
    while i < p.len()
        invariant
            i <= p.len(),
            are_entries(c@.items, c@.orphans, p@),
            v@ == of_trash(c@.items, c@.orphans, p@.take(i as int), t as int),
        decreases p.len() - i,
    {
        assert(p@.take(i + 1).drop_last() =~= p@.take(i as int));
        let w: Which = p[i];
        assert(p@[i as int] == w);
        let own: usize = match w {
            Which::Item(k) => {
                assert(c@.items[k as int] == c.items@[k as int]@);
                c.items[k].trash
            },
            Which::Orphan(k) => {
                assert(c@.orphans[k as int] == c.orphans@[k as int]@);
                c.orphans[k].trash
            },
        };
        if own == t {
            v.push(w);
        }
        i = i + 1;
    }
    assert(p@.take(p@.len() as int) =~= p@);
    v
}

spec fn purged_lines(
    ts: Seq<TrashView>,
    items: Seq<ItemView>,
    orphans: Seq<OrphanView>,
    cwd: Seq<u8>,
    p: Seq<Which>,
    n: int,
) -> Seq<Seq<char>> {
    Seq::new(
        n as nat,
        |k: int|
            "  "@ + escaped(
                match p[k] {
                    Which::Item(i) => shown_as(items[i as int].original, cwd),
                    Which::Orphan(i) => shown_as(
                        joined(
                            joined(ts[orphans[i as int].trash].path, lit("files")),
                            orphans[i as int].name,
                        ),
                        cwd,
                    ),
                },
            ) + "\n"@,
    )
}

proof fn purge_lines_are_lines(
    ts: Seq<TrashView>,
    items: Seq<ItemView>,
    orphans: Seq<OrphanView>,
    cwd: Seq<u8>,
    p: Seq<Which>,
    n: int,
)
    requires
        0 <= n,
    ensures
        purge_lines(ts, items, orphans, cwd, p, n) == purged_lines(
            ts,
            items,
            orphans,
            cwd,
            p,
            n,
        ).flatten(),
    decreases n,
{
    let all = purged_lines(ts, items, orphans, cwd, p, n);
    if n > 0 {
        purge_lines_are_lines(ts, items, orphans, cwd, p, n - 1);
        let front = purged_lines(ts, items, orphans, cwd, p, n - 1);
        assert(all.drop_last() =~= front);
        all.lemma_flatten_and_flatten_alt_are_equivalent();
        front.lemma_flatten_and_flatten_alt_are_equivalent();
        assert(all.last() == "  "@ + escaped(entry_shown(ts, items, orphans, cwd, p[n - 1]))
            + "\n"@);
        assert(purge_lines(ts, items, orphans, cwd, p, n) =~= front.flatten() + all.last());
    }
}

/// Before a purge each entry has a line of its own: where it was, or for an
/// orphan where it is. Past the first twenty only their number is given.
pub proof fn each_purged_entry_is_named(
    ts: Seq<TrashView>,
    items: Seq<ItemView>,
    orphans: Seq<OrphanView>,
    cwd: Seq<u8>,
    p: Seq<Which>,
)
    ensures
        ({
            let lines = Seq::new(
                if p.len() <= 20 {
                    p.len()
                } else {
                    20
                },
                |k: int|
                    "  "@ + escaped(
                        match p[k] {
                            Which::Item(i) => shown_as(items[i as int].original, cwd),
                            Which::Orphan(i) => shown_as(
                                joined(
                                    joined(ts[orphans[i as int].trash].path, lit("files")),
                                    orphans[i as int].name,
                                ),
                                cwd,
                            ),
                        },
                    ) + "\n"@,
            );
            purge_list(ts, items, orphans, cwd, p) == (if p.len() <= 20 {
                lines.flatten()
            } else {
                lines.flatten() + "  and "@ + decimal((p.len() - 20) as nat) + " more\n"@
            })
        }),
{
    let n: int = if p.len() <= 20 {
        p.len() as int
    } else {
        20
    };
    purge_lines_are_lines(ts, items, orphans, cwd, p, n);
    let lines = Seq::new(
        if p.len() <= 20 {
            p.len()
        } else {
            20
        },
        |k: int|
            "  "@ + escaped(
                match p[k] {
                    Which::Item(i) => shown_as(items[i as int].original, cwd),
                    Which::Orphan(i) => shown_as(
                        joined(
                            joined(ts[orphans[i as int].trash].path, lit("files")),
                            orphans[i as int].name,
                        ),
                        cwd,
                    ),
                },
            ) + "\n"@,
    );
    assert(lines =~= purged_lines(ts, items, orphans, cwd, p, n));
}

/// What was picked is purged, whatever was picked with it, and nothing else,
/// and each once.
pub proof fn picks_count_once(p: Seq<Which>)
    ensures
        forall|w: Which| #[trigger] entries_once(p).contains(w) <==> p.contains(w),
        entries_once(p).no_duplicates(),
    decreases p.len(),
{
    if p.len() > 0 {
        let before = p.drop_last();
        let front = entries_once(before);
        let all = entries_once(p);
        picks_count_once(before);
        assert forall|w: Which| #[trigger] all.contains(w) <==> p.contains(w) by {
            assert(front.contains(w) <==> before.contains(w));
            if before.contains(w) {
                let i = choose|i: int| 0 <= i < before.len() && before[i] == w;
                assert(p[i] == w);
            }
            if p.contains(w) && w != p.last() {
                let i = choose|i: int| 0 <= i < p.len() && p[i] == w;
                assert(before[i] == w);
            }
            assert(p[p.len() - 1] == p.last());
            if !front.contains(p.last()) {
                assert(all[front.len() as int] == p.last());
                if front.contains(w) {
                    let i = choose|i: int| 0 <= i < front.len() && front[i] == w;
                    assert(all[i] == w);
                }
                if all.contains(w) && w != p.last() {
                    let i = choose|i: int| 0 <= i < all.len() && all[i] == w;
                    assert(front[i] == w);
                }
            }
        }
        if !front.contains(p.last()) {
            assert forall|i: int, j: int| 0 <= i < j < all.len() implies all[i] != all[j] by {
                assert(front[i] == all[i]);
                if j == front.len() {
                    assert(front.contains(front[i]));
                } else {
                    assert(front[j] == all[j]);
                }
            }
        }
    }
}

/// Each entry that is to be purged is handed to its own trash directory, and to
/// no other.
pub proof fn each_entry_goes_to_its_trash(
    items: Seq<ItemView>,
    orphans: Seq<OrphanView>,
    p: Seq<Which>,
    t: int,
)
    ensures
        forall|w: Which|
            #![trigger of_trash(items, orphans, p, t).contains(w)]
            of_trash(items, orphans, p, t).contains(w) <==> p.contains(w) && (match w {
                Which::Item(i) => items[i as int].trash,
                Which::Orphan(i) => orphans[i as int].trash,
            }) == t,
        p.no_duplicates() ==> of_trash(items, orphans, p, t).no_duplicates(),
    decreases p.len(),
{
    if p.len() > 0 {
        let before = p.drop_last();
        let front = of_trash(items, orphans, before, t);
        let all = of_trash(items, orphans, p, t);
        each_entry_goes_to_its_trash(items, orphans, before, t);
        assert(p[p.len() - 1] == p.last());
        assert forall|w: Which|
            #![trigger all.contains(w)]
            all.contains(w) <==> p.contains(w) && trash_of(items, orphans, w) == t by {
            assert(front.contains(w) <==> before.contains(w) && trash_of(items, orphans, w) == t);
            if before.contains(w) {
                let i = choose|i: int| 0 <= i < before.len() && before[i] == w;
                assert(p[i] == w);
            }
            if p.contains(w) && w != p.last() {
                let i = choose|i: int| 0 <= i < p.len() && p[i] == w;
                assert(before[i] == w);
            }
            if trash_of(items, orphans, p.last()) == t {
                assert(all[front.len() as int] == p.last());
                if front.contains(w) {
                    let i = choose|i: int| 0 <= i < front.len() && front[i] == w;
                    assert(all[i] == w);
                }
                if all.contains(w) && w != p.last() {
                    let i = choose|i: int| 0 <= i < all.len() && all[i] == w;
                    assert(front[i] == w);
                }
            }
        }
        if p.no_duplicates() {
            assert(before.no_duplicates());
            assert forall|i: int, j: int| 0 <= i < j < all.len() implies all[i] != all[j] by {
                if j == front.len() {
                    assert(front[i] == all[i]);
                    assert(front.contains(front[i]));
                    assert(before.contains(front[i]));
                    let k = choose|k: int| 0 <= k < before.len() && before[k] == front[i];
                    assert(p[k] == front[i]);
                } else {
                    assert(front[i] == all[i] && front[j] == all[j]);
                }
            }
        }
    }
}

} // verus!
