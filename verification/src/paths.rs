//! Unix paths as bytes: components, joining, prefixes.
//!
//! A path is read as its components. The first is `/` for an absolute path and
//! `.` for a relative one that is written with a leading dot; the others are
//! names. Repeated slashes, trailing slashes and dots further on do not count.
use vstd::prelude::*;

use crate::bytes::{append, copy, join_with, same, split, split_on, split_then_join, views};

verus! {

/// The separator, `/`.
pub const SLASH: u8 = 0x2f;

/// The dot, `.`.
pub const DOT: u8 = 0x2e;

/// The component `/`.
pub open spec fn root_comp() -> Seq<u8> {
    seq![SLASH]
}

/// The component `.`.
pub open spec fn dot_comp() -> Seq<u8> {
    seq![DOT]
}

/// The component `..`.
pub open spec fn parent_comp() -> Seq<u8> {
    seq![DOT, DOT]
}

/// The pieces that name something: neither empty nor a lone dot.
pub open spec fn names_in(pieces: Seq<Seq<u8>>) -> Seq<Seq<u8>>
    decreases pieces.len(),
{
    if pieces.len() == 0 {
        Seq::empty()
    } else {
        let front = names_in(pieces.drop_last());
        if pieces.last().len() == 0 || pieces.last() == dot_comp() {
            front
        } else {
            front.push(pieces.last())
        }
    }
}

/// Whether the path starts at the root.
pub open spec fn absolute(p: Seq<u8>) -> bool {
    p.len() > 0 && p[0] == SLASH
}

/// The components of a path.
pub open spec fn comps(p: Seq<u8>) -> Seq<Seq<u8>> {
    let pieces = split_on(p, SLASH);
    let names = names_in(pieces);
    if absolute(p) {
        seq![root_comp()] + names
    } else if pieces[0] == dot_comp() {
        seq![dot_comp()] + names
    } else {
        names
    }
}

/// The shortest way to write a list of components.
pub open spec fn rendered(c: Seq<Seq<u8>>) -> Seq<u8> {
    if c.len() > 0 && c[0] == root_comp() {
        seq![SLASH] + join_with(c.skip(1), SLASH)
    } else {
        join_with(c, SLASH)
    }
}

/// A name: not empty, not a lone dot, no slash in it.
pub open spec fn is_name(s: Seq<u8>) -> bool {
    s.len() > 0 && s != dot_comp() && !s.contains(SLASH)
}

/// What every list of components looks like: names, after `/` or `.` at most.
pub open spec fn well_formed(c: Seq<Seq<u8>>) -> bool {
    forall|i: int|
        0 <= i < c.len() ==> (is_name(#[trigger] c[i]) || (i == 0 && (c[i] == root_comp() || c[i]
            == dot_comp())))
}

/// Whether `base` is a leading part of `c`, component by component.
pub open spec fn under(c: Seq<Seq<u8>>, base: Seq<Seq<u8>>) -> bool {
    base.len() <= c.len() && c.take(base.len() as int) == base
}

/// `rest` continued from `c`: an absolute `rest` starts over.
pub open spec fn continued(c: Seq<Seq<u8>>, rest: Seq<Seq<u8>>) -> Seq<Seq<u8>> {
    if c.len() == 0 || rest.len() == 0 || rest[0] == root_comp() {
        if rest.len() == 0 {
            c
        } else {
            rest
        }
    } else if rest[0] == dot_comp() {
        c + rest.skip(1)
    } else {
        c + rest
    }
}

/// Components go on behind others one after another. A root among them begins anew, a leading dot
/// adds nothing, and nothing on either side leaves the other as it is.
pub proof fn components_go_on_behind_others(
    c: Seq<Seq<u8>>,
    first: Seq<u8>,
    others: Seq<Seq<u8>>,
)
    ensures
        continued(c, Seq::empty()) == c,
        continued(Seq::empty(), others) == others,
        continued(c, seq![seq![0x2fu8]] + others) == seq![seq![0x2fu8]] + others,
        c.len() > 0 ==> continued(c, seq![seq![0x2eu8]] + others) == c + others,
        c.len() > 0 && first != seq![0x2fu8] && first != seq![0x2eu8] ==> continued(
            c,
            seq![first] + others,
        ) == c.push(first) + others,
{
    assert(root_comp() =~= seq![0x2fu8]);
    assert(dot_comp() =~= seq![0x2eu8]);
    assert(seq![0x2fu8][0] != seq![0x2eu8][0]);
    assert((seq![seq![0x2eu8]] + others).skip(1) =~= others);
    assert(c + (seq![first] + others) =~= c.push(first) + others);
    if others.len() == 0 {
        assert(others =~= Seq::empty());
    }
}

/// The text of `a` followed by `b`, with a slash between them where one is
/// missing; an absolute `b` stands alone.
pub open spec fn joined(a: Seq<u8>, b: Seq<u8>) -> Seq<u8> {
    if absolute(b) {
        b
    } else if a.len() == 0 || a.last() == SLASH {
        a + b
    } else {
        a.push(SLASH) + b
    }
}

// ---------------------------------------------------------------------------
// Facts
// ---------------------------------------------------------------------------

proof fn names_are_names(pieces: Seq<Seq<u8>>)
    requires
        forall|i: int| 0 <= i < pieces.len() ==> !(#[trigger] pieces[i]).contains(SLASH),
    ensures
        forall|i: int| 0 <= i < names_in(pieces).len() ==> is_name(#[trigger] names_in(pieces)[i]),
    decreases pieces.len(),
{
    if pieces.len() > 0 {
        let p = pieces.drop_last();
        assert forall|i: int| 0 <= i < p.len() implies !(#[trigger] p[i]).contains(SLASH) by {
            assert(p[i] == pieces[i]);
        }
        names_are_names(p);
        assert(!pieces[pieces.len() - 1].contains(SLASH));
        assert forall|i: int| 0 <= i < names_in(pieces).len() implies is_name(
            #[trigger] names_in(pieces)[i],
        ) by {
            if i < names_in(p).len() {
                assert(is_name(names_in(p)[i]));
            }
        }
    }
}

/// The components of a path are names, after `/` or `.` at most.
pub proof fn comps_are_well_formed(p: Seq<u8>)
    ensures
        well_formed(comps(p)),
{
    split_then_join(p, SLASH);
    names_are_names(split_on(p, SLASH));
}

proof fn names_in_concat(a: Seq<Seq<u8>>, b: Seq<Seq<u8>>)
    ensures
        names_in(a + b) == names_in(a) + names_in(b),
    decreases b.len(),
{
    if b.len() == 0 {
        assert(a + b =~= a);
        assert(names_in(a) + names_in(b) =~= names_in(a));
    } else {
        assert((a + b).drop_last() =~= a + b.drop_last());
        names_in_concat(a, b.drop_last());
        assert(names_in(a + b) =~= names_in(a) + names_in(b));
    }
}

/// Pieces without separators come apart again as they were.
pub proof fn join_then_split(pieces: Seq<Seq<u8>>, sep: u8)
    requires
        pieces.len() >= 1,
        forall|i: int| 0 <= i < pieces.len() ==> !(#[trigger] pieces[i]).contains(sep),
    ensures
        split_on(join_with(pieces, sep), sep) == pieces,
    decreases pieces.len(),
{
    let last = pieces.last();
    assert(!pieces[pieces.len() - 1].contains(sep));
    if pieces.len() == 1 {
        split_plus(Seq::empty(), last, sep);
        assert(Seq::<u8>::empty() + last =~= last);
        assert(split_on(last, sep) =~= pieces);
    } else {
        let front = pieces.drop_last();
        assert forall|i: int| 0 <= i < front.len() implies !(#[trigger] front[i]).contains(sep) by {
            assert(front[i] == pieces[i]);
        }
        join_then_split(front, sep);
        let j = join_with(front, sep);
        assert(j.push(sep).drop_last() =~= j);
        split_plus(j.push(sep), last, sep);
        assert(split_on(j.push(sep) + last, sep) =~= pieces);
    }
}

/// Text without a separator lengthens the last piece.
pub proof fn split_plus(s: Seq<u8>, t: Seq<u8>, sep: u8)
    requires
        !t.contains(sep),
    ensures
        split_on(s, sep).len() >= 1,
        split_on(s + t, sep) == split_on(s, sep).drop_last().push(split_on(s, sep).last() + t),
    decreases t.len(),
{
    split_then_join(s, sep);
    let front = split_on(s, sep);
    if t.len() == 0 {
        assert(s + t =~= s);
        assert(front.last() + t =~= front.last());
        assert(front.drop_last().push(front.last()) =~= front);
    } else {
        let u = t.drop_last();
        assert forall|i: int| 0 <= i < u.len() implies u[i] != sep by {
            assert(u[i] == t[i]);
        }
        split_plus(s, u, sep);
        assert((s + t).drop_last() =~= s + u);
        assert((s + t).last() == t.last());
        assert(t.last() == t[t.len() - 1]);
        assert((front.last() + u).push(t.last()) =~= front.last() + t);
        assert(split_on(s + t, sep) =~= front.drop_last().push(front.last() + t));
    }
}

proof fn names_of_names(c: Seq<Seq<u8>>)
    requires
        forall|i: int| 0 <= i < c.len() ==> is_name(#[trigger] c[i]),
    ensures
        names_in(c) == c,
    decreases c.len(),
{
    if c.len() > 0 {
        let f = c.drop_last();
        assert forall|i: int| 0 <= i < f.len() implies is_name(#[trigger] f[i]) by {
            assert(f[i] == c[i]);
        }
        names_of_names(f);
        assert(is_name(c[c.len() - 1]));
        assert(f.push(c.last()) =~= c);
    }
}

/// Writing a path out in its shortest form keeps its components.
pub proof fn rendered_keeps_comps(c: Seq<Seq<u8>>)
    requires
        well_formed(c),
    ensures
        comps(rendered(c)) == c,
{
    if c.len() == 0 {
        assert(rendered(c) =~= Seq::<u8>::empty());
        reveal_with_fuel(names_in, 2);
        assert(comps(rendered(c)) =~= c);
    } else if c[0] == root_comp() {
        let rest = c.skip(1);
        assert forall|i: int| 0 <= i < rest.len() implies is_name(#[trigger] rest[i]) by {
            assert(rest[i] == c[i + 1]);
        }
        let tail = join_with(rest, SLASH);
        let head = Seq::<u8>::empty().push(SLASH);
        assert(head =~= seq![SLASH]);
        let p = rendered(c);
        if rest.len() == 0 {
            assert(p =~= head);
            assert(head.drop_last() =~= Seq::<u8>::empty());
            reveal_with_fuel(split_on, 2);
            assert(split_on(p, SLASH) =~= seq![Seq::<u8>::empty(), Seq::<u8>::empty()]);
            reveal_with_fuel(names_in, 3);
            assert(seq![Seq::<u8>::empty(), Seq::<u8>::empty()].drop_last() =~= seq![
                Seq::<u8>::empty(),
            ]);
            assert(names_in(split_on(p, SLASH)) =~= rest);
        } else {
            let all = seq![Seq::<u8>::empty()] + rest;
            assert forall|i: int| 0 <= i < all.len() implies !(#[trigger] all[i]).contains(
                SLASH,
            ) by {
                if i > 0 {
                    assert(all[i] == rest[i - 1]);
                }
            }
            join_leading_empty(rest, SLASH);
            join_then_split(all, SLASH);
            assert(p =~= join_with(all, SLASH));
            names_in_concat(seq![Seq::<u8>::empty()], rest);
            names_of_names(rest);
            reveal_with_fuel(names_in, 2);
            assert(names_in(seq![Seq::<u8>::empty()]) =~= Seq::empty());
            assert(names_in(all) =~= rest);
        }
        assert(absolute(p));
        assert(seq![root_comp()] + rest =~= c);
    } else {
        assert forall|i: int| 0 <= i < c.len() implies !(#[trigger] c[i]).contains(SLASH) by {
        }
        join_then_split(c, SLASH);
        let p = rendered(c);
        first_byte_of_join(c, SLASH);
        assert(!absolute(p)) by {
            assert(c[0].len() > 0);
            if c[0][0] == SLASH {
                assert(c[0].contains(SLASH));
            }
        }
        if c[0] == dot_comp() {
            let rest = c.skip(1);
            assert forall|i: int| 0 <= i < rest.len() implies is_name(#[trigger] rest[i]) by {
                assert(rest[i] == c[i + 1]);
            }
            assert(c =~= seq![dot_comp()] + rest);
            names_in_concat(seq![dot_comp()], rest);
            names_of_names(rest);
            reveal_with_fuel(names_in, 2);
            assert(names_in(seq![dot_comp()]) =~= Seq::empty());
            assert(names_in(c) =~= rest);
        } else {
            names_of_names(c);
        }
    }
}

proof fn join_leading_empty(rest: Seq<Seq<u8>>, sep: u8)
    requires
        rest.len() >= 1,
    ensures
        join_with(seq![Seq::<u8>::empty()] + rest, sep) == seq![sep] + join_with(rest, sep),
    decreases rest.len(),
{
    let all = seq![Seq::<u8>::empty()] + rest;
    assert(all.drop_last() =~= seq![Seq::<u8>::empty()] + rest.drop_last());
    assert(all.last() == rest.last());
    if rest.len() == 1 {
        assert(all.drop_last() =~= seq![Seq::<u8>::empty()]);
        reveal_with_fuel(join_with, 2);
        assert(all[0].push(sep) =~= seq![sep]);
        assert(join_with(all, sep) =~= seq![sep] + rest[0]);
    } else {
        join_leading_empty(rest.drop_last(), sep);
        assert(join_with(all, sep) =~= seq![sep] + join_with(rest, sep));
    }
}

proof fn first_byte_of_join(c: Seq<Seq<u8>>, sep: u8)
    requires
        c.len() >= 1,
        c[0].len() >= 1,
    ensures
        join_with(c, sep).len() >= 1,
        join_with(c, sep)[0] == c[0][0],
    decreases c.len(),
{
    if c.len() > 1 {
        assert(c.drop_last()[0] == c[0]);
        first_byte_of_join(c.drop_last(), sep);
    }
}

/// Text on both sides of a separator is cut on both sides of it.
proof fn split_around(s: Seq<u8>, t: Seq<u8>, sep: u8)
    ensures
        split_on(s.push(sep) + t, sep) == split_on(s, sep) + split_on(t, sep),
    decreases t.len(),
{
    split_then_join(t, sep);
    if t.len() == 0 {
        assert(s.push(sep) + t =~= s.push(sep));
        assert(s.push(sep).drop_last() =~= s);
        assert(split_on(s.push(sep), sep) =~= split_on(s, sep) + split_on(t, sep));
    } else {
        let u = t.drop_last();
        split_around(s, u, sep);
        split_then_join(u, sep);
        let whole = s.push(sep) + t;
        assert(whole.drop_last() =~= s.push(sep) + u);
        assert(whole.last() == t.last());
        let a = split_on(s, sep);
        let b = split_on(u, sep);
        assert((a + b).last() == b.last());
        assert((a + b).drop_last() =~= a + b.drop_last());
        assert(split_on(whole, sep) =~= a + split_on(t, sep));
    }
}

/// A relative path joined to `a` continues it.
pub proof fn comps_of_joined(a: Seq<u8>, b: Seq<u8>)
    requires
        a.len() > 0,
        !absolute(b),
    ensures
        comps(joined(a, b)) == comps(a) + names_in(split_on(b, SLASH)),
{
    let j = joined(a, b);
    let front = if a.last() == SLASH {
        a.drop_last()
    } else {
        a
    };
    assert(j =~= front.push(SLASH) + b);
    split_around(front, b, SLASH);
    split_then_join(front, SLASH);
    split_then_join(a, SLASH);
    let fp = split_on(front, SLASH);
    let bp = split_on(b, SLASH);
    names_in_concat(fp, bp);
    if a.last() == SLASH {
        assert(split_on(a, SLASH) == fp.push(Seq::<u8>::empty()));
        assert(fp.push(Seq::<u8>::empty()).drop_last() =~= fp);
        assert(names_in(split_on(a, SLASH)) == names_in(fp));
    }
    assert(split_on(a, SLASH)[0] == fp[0]);
    assert((fp + bp)[0] == fp[0]);
    assert(j[0] == a[0]);
    assert(comps(j) =~= comps(a) + names_in(bp));
}

/// A path is read name by name: a name behind a slash is one component more,
/// while another slash, and a dot behind a slash, add nothing. By themselves `/`
/// and `.` are one component each, and so is a name; an empty path has none.
pub proof fn a_name_is_one_component_more(p: Seq<u8>, n: Seq<u8>)
    ensures
        p.len() > 0 && n.len() > 0 && n != seq![0x2eu8] && !n.contains(0x2f) ==> comps(
            p.push(0x2f) + n,
        ) == comps(p).push(n) && comps(joined(p, n)) == comps(p).push(n),
        p.len() > 0 ==> comps(p.push(0x2f)) == comps(p) && comps(p.push(0x2f).push(0x2e)) == comps(
            p,
        ),
        n.len() > 0 && n != seq![0x2eu8] && !n.contains(0x2f) ==> comps(n) == seq![n],
        comps(seq![0x2fu8]) == seq![seq![0x2fu8]],
        comps(seq![0x2eu8]) == seq![seq![0x2eu8]],
        comps(Seq::<u8>::empty()).len() == 0,
{
    let none = Seq::<u8>::empty();
    let no_pieces = Seq::<Seq<u8>>::empty();
    assert(split_on(none, SLASH) =~= seq![none]);
    assert(seq![none].drop_last() =~= no_pieces);
    assert(names_in(no_pieces) =~= no_pieces);
    assert(names_in(seq![none]) =~= no_pieces);
    let dot = seq![DOT];
    assert(dot.drop_last() =~= none);
    assert(split_on(dot, SLASH) =~= seq![dot]);
    assert(seq![dot].drop_last() =~= no_pieces);
    assert(names_in(seq![dot]) =~= no_pieces);
    let root = seq![SLASH];
    assert(root.drop_last() =~= none);
    assert(split_on(root, SLASH) =~= seq![none, none]);
    assert(seq![none, none].drop_last() =~= seq![none]);
    assert(names_in(seq![none, none]) =~= no_pieces);
    assert(comps(root) =~= seq![root]);
    assert(comps(dot) =~= seq![dot]);
    if n.len() > 0 && n != dot && !n.contains(SLASH) {
        split_plus(none, n, SLASH);
        assert(none + n =~= n);
        assert(split_on(n, SLASH) =~= seq![n]);
        assert(seq![n].drop_last() =~= no_pieces);
        assert(names_in(seq![n]) =~= seq![n]);
        if absolute(n) {
            assert(n.contains(SLASH));
        }
        assert(comps(n) =~= seq![n]);
        if p.len() > 0 {
            comps_of_joined(p, n);
            with_a_slash(p, n);
            assert(comps(p) + seq![n] =~= comps(p).push(n));
        }
    }
    if p.len() > 0 {
        with_a_slash(p, none);
        assert(p.push(SLASH) + none =~= p.push(SLASH));
        assert(comps(p) + no_pieces =~= comps(p));
        with_a_slash(p, dot);
        assert(p.push(SLASH) + dot =~= p.push(SLASH).push(DOT));
    }
}

proof fn with_a_slash(p: Seq<u8>, t: Seq<u8>)
    requires
        p.len() > 0,
    ensures
        comps(p.push(SLASH) + t) == comps(p) + names_in(split_on(t, SLASH)),
{
    split_around(p, t, SLASH);
    split_then_join(p, SLASH);
    let a = split_on(p, SLASH);
    let b = split_on(t, SLASH);
    names_in_concat(a, b);
    assert((a + b)[0] == a[0]);
    assert((p.push(SLASH) + t)[0] == p[0]);
    assert(comps(p.push(SLASH) + t) =~= comps(p) + names_in(b));
}

/// One list of components lies under another just where it goes on from it.
pub proof fn under_is_going_on(c: Seq<Seq<u8>>, base: Seq<Seq<u8>>)
    ensures
        under(c, base) <==> (base.len() <= c.len() && forall|i: int|
            0 <= i < base.len() ==> c[i] == #[trigger] base[i]),
        forall|rest: Seq<Seq<u8>>| under(#[trigger] (base + rest), base),
{
    assert forall|rest: Seq<Seq<u8>>| under(#[trigger] (base + rest), base) by {
        assert((base + rest).take(base.len() as int) =~= base);
    }
    if under(c, base) {
        assert forall|i: int| 0 <= i < base.len() implies c[i] == #[trigger] base[i] by {
            assert(c.take(base.len() as int)[i] == c[i]);
        }
    }
    if base.len() <= c.len() && forall|i: int|
        0 <= i < base.len() ==> c[i] == #[trigger] base[i] {
        assert(c.take(base.len() as int) =~= base);
    }
}

/// Joining puts just one slash between two paths, and an absolute path stands
/// for itself.
pub proof fn joining_needs_one_slash(a: Seq<u8>, b: Seq<u8>)
    ensures
        b.len() > 0 && b[0] == 0x2f ==> joined(a, b) == b,
        !(b.len() > 0 && b[0] == 0x2f) ==> joined(a.push(0x2f), b) == a.push(0x2f) + b,
        !(b.len() > 0 && b[0] == 0x2f) && a.len() > 0 && a.last() != 0x2f ==> joined(a, b)
            == a.push(0x2f) + b,
        joined(Seq::<u8>::empty(), b) == b,
{
    assert(Seq::<u8>::empty() + b =~= b);
}

/// A path written in its shortest form names the same place, and writing it so
/// again changes nothing.
pub proof fn cleaning_is_stable(p: Seq<u8>)
    ensures
        comps(rendered(comps(p))) == comps(p),
        rendered(comps(rendered(comps(p)))) == rendered(comps(p)),
{
    comps_are_well_formed(p);
    rendered_keeps_comps(comps(p));
}

// ---------------------------------------------------------------------------
// Code
// ---------------------------------------------------------------------------

fn is_dot(s: &[u8]) -> (r: bool)
    ensures
        r == (s@ == dot_comp()),
{
    if s.len() == 1 && s[0] == DOT {
        assert(s@ =~= dot_comp());
        true
    } else {
        false
    }
}

/// Whether the path starts at the root.
pub fn is_absolute(p: &[u8]) -> (r: bool)
    ensures
        r == absolute(p@),
{
    p.len() > 0 && p[0] == SLASH
}

/// The components of a path.
pub fn components(p: &[u8]) -> (c: Vec<Vec<u8>>)
    ensures
        views(c@) == comps(p@),
{
    let pieces = split(p, SLASH);
    proof {
        split_then_join(p@, SLASH);
    }
    let ghost all = split_on(p@, SLASH);
    let mut c: Vec<Vec<u8>> = Vec::new();
    if is_absolute(p) {
        let mut r: Vec<u8> = Vec::new();
        r.push(SLASH);
        assert(r@ =~= root_comp());
        c.push(r);
    } else {
        assert(pieces@[0]@ == all[0]);
        if is_dot(pieces[0].as_slice()) {
            let mut r: Vec<u8> = Vec::new();
            r.push(DOT);
            assert(r@ =~= dot_comp());
            c.push(r);
        }
    }
    let ghost head = views(c@);
    let mut i: usize = 0;
    assert(views(c@) =~= head + names_in(all.take(0)));
    while i < pieces.len()
        invariant
            i <= pieces.len(),
            views(pieces@) == all,
            views(c@) =~= head + names_in(all.take(i as int)),
        decreases pieces.len() - i,
    {
        assert(all.take(i + 1).drop_last() =~= all.take(i as int));
        assert(pieces@[i as int]@ == all[i as int]);
        if pieces[i].len() != 0 && !is_dot(pieces[i].as_slice()) {
            let ghost before = views(c@);
            c.push(copy(pieces[i].as_slice()));
            assert(views(c@) =~= before.push(all[i as int]));
        }
        i = i + 1;
    }
    assert(all.take(all.len() as int) =~= all);
    c
}

/// The shortest way to write components.
pub fn render(c: &[Vec<u8>]) -> (p: Vec<u8>)
    ensures
        p@ == rendered(views(c@)),
{
    let mut p: Vec<u8> = Vec::new();
    let mut i: usize = 0;
    let ghost v = views(c@);
    let mut skip: usize = 0;
    if c.len() > 0 && c[0].len() == 1 && c[0][0] == SLASH {
        assert(v[0] =~= root_comp());
        p.push(SLASH);
        i = 1;
        skip = 1;
    }
    let ghost body = v.skip(skip as int);
    let ghost head = p@;
    assert(p@ =~= head + join_with(body.take(0), SLASH));
    while i < c.len()
        invariant
            skip <= i <= c.len(),
            v == views(c@),
            body == v.skip(skip as int),
            p@ =~= head + join_with(body.take(i - skip), SLASH),
        decreases c.len() - i,
    {
        assert(body.take(i - skip + 1).drop_last() =~= body.take(i - skip));
        assert(body.take(i - skip + 1).last() == c@[i as int]@);
        if i > skip {
            p.push(SLASH);
        } else {
            assert(body.take(0).len() == 0);
        }
        append(&mut p, c[i].as_slice());
        i = i + 1;
    }
    assert(body.take(body.len() as int) =~= body);
    assert(v.skip(0) =~= v);
    p
}

/// Whether `base` is a leading part of `c`.
pub fn begins_with(c: &[Vec<u8>], base: &[Vec<u8>]) -> (r: bool)
    ensures
        r == under(views(c@), views(base@)),
{
    if c.len() < base.len() {
        return false;
    }
    let ghost vc = views(c@);
    let ghost vb = views(base@);
    let mut i: usize = 0;
    while i < base.len()
        invariant
            i <= base.len() <= c.len(),
            vc == views(c@),
            vb == views(base@),
            vc.take(i as int) =~= vb.take(i as int),
        decreases base.len() - i,
    {
        if !same(c[i].as_slice(), base[i].as_slice()) {
            assert(vc.take(vb.len() as int)[i as int] != vb[i as int]);
            return false;
        }
        assert(vc.take(i + 1) =~= vc.take(i as int).push(vc[i as int]));
        assert(vb.take(i + 1) =~= vb.take(i as int).push(vb[i as int]));
        i = i + 1;
    }
    assert(vb.take(vb.len() as int) =~= vb);
    true
}

/// Whether `path` is `base` or lies beneath it.
pub fn starts_with(path: &[u8], base: &[u8]) -> (r: bool)
    ensures
        r == under(comps(path@), comps(base@)),
{
    let c = components(path);
    let b = components(base);
    begins_with(c.as_slice(), b.as_slice())
}

/// Whether two paths are written with the same components.
pub fn same_path(a: &[u8], b: &[u8]) -> (r: bool)
    ensures
        r == (comps(a@) == comps(b@)),
{
    let ca = components(a);
    let cb = components(b);
    let r = ca.len() == cb.len() && begins_with(ca.as_slice(), cb.as_slice());
    assert(comps(a@).take(comps(a@).len() as int) =~= comps(a@));
    r
}

/// `b` taken from `a` on.
pub fn join(a: &[u8], b: &[u8]) -> (p: Vec<u8>)
    ensures
        p@ == joined(a@, b@),
{
    if is_absolute(b) {
        return copy(b);
    }
    let mut p = copy(a);
    if a.len() != 0 && a[a.len() - 1] != SLASH {
        p.push(SLASH);
    }
    append(&mut p, b);
    p
}

/// No trailing slash, no repeated separators, no dot further on.
pub fn clean(p: &[u8]) -> (r: Vec<u8>)
    ensures
        r@ == rendered(comps(p@)),
{
    let c = components(p);
    render(c.as_slice())
}

/// The components of `path` past those of `base`.
pub fn beyond(path: &[u8], base: &[u8]) -> (r: Option<Vec<Vec<u8>>>)
    ensures
        match r {
            Some(rest) => under(comps(path@), comps(base@)) && views(rest@) == comps(path@).skip(
                comps(base@).len() as int,
            ),
            None => !under(comps(path@), comps(base@)),
        },
{
    let c = components(path);
    let b = components(base);
    if !begins_with(c.as_slice(), b.as_slice()) {
        return None;
    }
    Some(tail(c.as_slice(), b.len()))
}

/// The components from the `n`th on.
pub fn tail(c: &[Vec<u8>], n: usize) -> (r: Vec<Vec<u8>>)
    requires
        n <= c@.len(),
    ensures
        views(r@) == views(c@).skip(n as int),
{
    let mut r: Vec<Vec<u8>> = Vec::new();
    let mut i: usize = n;
    let ghost all = views(c@);
    while i < c.len()
        invariant
            n <= i <= c.len(),
            all == views(c@),
            views(r@) =~= all.subrange(n as int, i as int),
        decreases c.len() - i,
    {
        let ghost before = views(r@);
        r.push(copy(c[i].as_slice()));
        assert(views(r@) =~= before.push(all[i as int]));
        i = i + 1;
    }
    assert(all.subrange(n as int, all.len() as int) =~= all.skip(n as int));
    r
}

/// `rest` continued from `c`.
pub fn continue_with(c: Vec<Vec<u8>>, rest: Vec<Vec<u8>>) -> (r: Vec<Vec<u8>>)
    ensures
        views(r@) == continued(views(c@), views(rest@)),
{
    if rest.len() == 0 {
        return c;
    }
    let root = rest[0].len() == 1 && rest[0][0] == SLASH;
    assert(root == (views(rest@)[0] == root_comp())) by {
        if root {
            assert(views(rest@)[0] =~= root_comp());
        }
    }
    if c.len() == 0 || root {
        return rest;
    }
    let mut i: usize = 0;
    if is_dot(rest[0].as_slice()) {
        i = 1;
    }
    let ghost start = views(c@);
    let ghost more = views(rest@);
    let ghost from = i as int;
    let mut c = c;
    while i < rest.len()
        invariant
            from <= i <= rest.len(),
            0 <= from <= 1,
            more == views(rest@),
            views(c@) =~= start + more.subrange(from, i as int),
        decreases rest.len() - i,
    {
        let ghost before = views(c@);
        c.push(copy(rest[i].as_slice()));
        assert(views(c@) =~= before.push(more[i as int]));
        i = i + 1;
    }
    assert(more.subrange(from, more.len() as int) =~= more.skip(from));
    assert(more.skip(0) =~= more);
    c
}

} // verus!
