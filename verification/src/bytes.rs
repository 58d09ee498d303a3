//! Byte strings: splitting, comparing, trimming, copying.
//!
//! File names and paths are bytes throughout: nothing here asks for UTF-8.
use vstd::prelude::*;
use vstd::slice::slice_to_vec;
use vstd::string::*;

verus! {

/// The contents of a list of byte strings.
pub open spec fn views(v: Seq<Vec<u8>>) -> Seq<Seq<u8>> {
    Seq::new(v.len(), |i: int| v[i]@)
}

/// The bytes of a text literal.
pub open spec fn lit(s: &str) -> Seq<u8> {
    s.spec_bytes()
}

/// `s` cut at every `sep`: one piece more than there are separators.
pub open spec fn split_on(s: Seq<u8>, sep: u8) -> Seq<Seq<u8>>
    decreases s.len(),
{
    if s.len() == 0 {
        seq![Seq::<u8>::empty()]
    } else {
        let front = split_on(s.drop_last(), sep);
        if s.last() == sep {
            front.push(Seq::<u8>::empty())
        } else {
            front.drop_last().push(front.last().push(s.last()))
        }
    }
}

/// The pieces put back together, `sep` between each two.
pub open spec fn join_with(pieces: Seq<Seq<u8>>, sep: u8) -> Seq<u8>
    decreases pieces.len(),
{
    if pieces.len() == 0 {
        Seq::empty()
    } else if pieces.len() == 1 {
        pieces[0]
    } else {
        join_with(pieces.drop_last(), sep).push(sep) + pieces.last()
    }
}

/// Splitting loses nothing: the pieces joined give the text back, none of them
/// holds the separator, and there is at least one.
pub proof fn split_then_join(s: Seq<u8>, sep: u8)
    ensures
        split_on(s, sep).len() >= 1,
        join_with(split_on(s, sep), sep) == s,
        forall|i: int| 0 <= i < split_on(s, sep).len() ==> !(#[trigger] split_on(s, sep)[i]).contains(
            sep,
        ),
    decreases s.len(),
{
    if s.len() > 0 {
        let front = split_on(s.drop_last(), sep);
        split_then_join(s.drop_last(), sep);
        if s.last() == sep {
            let all = front.push(Seq::<u8>::empty());
            assert(all.drop_last() =~= front);
            assert(join_with(all, sep) =~= s);
            assert(all == split_on(s, sep));
        } else {
            let tail = front.last().push(s.last());
            let all = front.drop_last().push(tail);
            assert(all.drop_last() =~= front.drop_last());
            if front.len() == 1 {
                assert(front[0].push(s.last()) =~= s);
            } else {
                let lead = join_with(front.drop_last(), sep).push(sep);
                assert(lead + front.last() == s.drop_last());
                assert(lead + tail =~= (lead + front.last()).push(s.last()));
                assert(s.drop_last().push(s.last()) =~= s);
            }
            assert(join_with(all, sep) =~= s);
            assert forall|i: int| 0 <= i < all.len() implies !(#[trigger] all[i]).contains(sep) by {
                if i == all.len() - 1 {
                    assert(!front.last().contains(sep));
                    assert forall|k: int| 0 <= k < tail.len() implies tail[k] != sep by {
                        if k < front.last().len() {
                            assert(front.last()[k] == tail[k]);
                        }
                    }
                } else {
                    assert(all[i] == front[i]);
                }
            }
            assert(all == split_on(s, sep));
        }
    } else {
        assert(split_on(s, sep)[0] =~= s);
    }
}

/// Cuts `s` at every `sep`.
pub fn split(s: &[u8], sep: u8) -> (pieces: Vec<Vec<u8>>)
    ensures
        views(pieces@) == split_on(s@, sep),
{
    let mut done: Vec<Vec<u8>> = Vec::new();
    let mut last: Vec<u8> = Vec::new();
    let mut i: usize = 0;
    assert(views(done@).push(last@) =~= split_on(s@.take(0), sep));
    while i < s.len()
        invariant
            i <= s.len(),
            views(done@).push(last@) =~= split_on(s@.take(i as int), sep),
        decreases s.len() - i,
    {
        assert(s@.take(i + 1).drop_last() =~= s@.take(i as int));
        let ghost before = views(done@);
        if s[i] == sep {
            done.push(last);
            last = Vec::new();
            assert(views(done@) =~= split_on(s@.take(i as int), sep));
        } else {
            last.push(s[i]);
            assert(split_on(s@.take(i as int), sep).drop_last() =~= before);
        }
        i = i + 1;
    }
    assert(s@.take(s@.len() as int) =~= s@);
    let ghost before = views(done@);
    done.push(last);
    assert(views(done@) =~= before.push(last@));
    done
}

/// A copy of `s`.
pub fn copy(s: &[u8]) -> (v: Vec<u8>)
    ensures
        v@ == s@,
{
    slice_to_vec(s)
}

/// The bytes of a text.
pub fn of(s: &str) -> (v: Vec<u8>)
    ensures
        v@ == lit(s),
{
    slice_to_vec(s.as_bytes())
}

/// Whether two byte strings are the same.
pub fn same(a: &[u8], b: &[u8]) -> (r: bool)
    ensures
        r == (a@ == b@),
{
    if a.len() != b.len() {
        return false;
    }
    let mut i: usize = 0;
    while i < a.len()
        invariant
            i <= a.len(),
            a.len() == b.len(),
            a@.take(i as int) =~= b@.take(i as int),
        decreases a.len() - i,
    {
        if a[i] != b[i] {
            assert(a@[i as int] != b@[i as int]);
            return false;
        }
        assert(a@.take(i + 1) =~= a@.take(i as int).push(a@[i as int]));
        assert(b@.take(i + 1) =~= b@.take(i as int).push(b@[i as int]));
        i = i + 1;
    }
    assert(a@.take(a@.len() as int) =~= a@);
    assert(b@.take(b@.len() as int) =~= b@);
    true
}

/// Whether `s` begins with `head`.
pub open spec fn has_prefix(s: Seq<u8>, head: Seq<u8>) -> bool {
    s.len() >= head.len() && s.take(head.len() as int) == head
}

/// Whether `s` ends with `tail`.
pub open spec fn has_suffix(s: Seq<u8>, tail: Seq<u8>) -> bool {
    s.len() >= tail.len() && s.skip(s.len() - tail.len()) == tail
}

/// What follows `head` in `s`, where `s` begins with it.
pub fn strip_prefix(s: &[u8], head: &[u8]) -> (r: Option<Vec<u8>>)
    ensures
        match r {
            Some(rest) => has_prefix(s@, head@) && rest@ == s@.skip(head@.len() as int),
            None => !has_prefix(s@, head@),
        },
{
    if s.len() < head.len() {
        return None;
    }
    let (front, back) = s.split_at(head.len());
    assert(front@ =~= s@.take(head@.len() as int));
    assert(back@ =~= s@.skip(head@.len() as int));
    if same(front, head) {
        Some(copy(back))
    } else {
        None
    }
}

/// What stands before `tail` in `s`, where `s` ends with it.
pub fn strip_suffix(s: &[u8], tail: &[u8]) -> (r: Option<Vec<u8>>)
    ensures
        match r {
            Some(rest) => has_suffix(s@, tail@) && rest@ == s@.take(s@.len() - tail@.len()),
            None => !has_suffix(s@, tail@),
        },
{
    if s.len() < tail.len() {
        return None;
    }
    let (front, back) = s.split_at(s.len() - tail.len());
    assert(front@ =~= s@.take(s@.len() - tail@.len()));
    assert(back@ =~= s@.skip(s@.len() - tail@.len()));
    if same(back, tail) {
        Some(copy(front))
    } else {
        None
    }
}

/// Adds the bytes of `more` to the end of `v`.
pub fn append(v: &mut Vec<u8>, more: &[u8])
    ensures
        final(v)@ == old(v)@ + more@,
{
    let mut i: usize = 0;
    let ghost start = v@;
    assert(v@ =~= start + more@.take(0));
    while i < more.len()
        invariant
            i <= more.len(),
            v@ =~= start + more@.take(i as int),
        decreases more.len() - i,
    {
        v.push(more[i]);
        assert(more@.take(i + 1) =~= more@.take(i as int).push(more@[i as int]));
        i = i + 1;
    }
    assert(more@.take(more@.len() as int) =~= more@);
}

/// The bytes that ASCII counts as white space: space, tab, line feed, form feed
/// and carriage return.
pub open spec fn ascii_space(b: u8) -> bool {
    b == 0x20 || b == 0x09 || b == 0x0a || b == 0x0c || b == 0x0d
}

/// `s` without the white space at its end.
pub open spec fn trimmed_end(s: Seq<u8>) -> Seq<u8>
    decreases s.len(),
{
    if s.len() > 0 && ascii_space(s.last()) {
        trimmed_end(s.drop_last())
    } else {
        s
    }
}

/// Takes the white space off the end of `s`.
pub fn trim_end(s: &[u8]) -> (v: Vec<u8>)
    ensures
        v@ == trimmed_end(s@),
{
    let mut n: usize = s.len();
    assert(s@.take(n as int) =~= s@);
    while n > 0 && (s[n - 1] == 0x20 || s[n - 1] == 0x09 || s[n - 1] == 0x0a || s[n - 1] == 0x0c
        || s[n - 1] == 0x0d)
        invariant
            n <= s.len(),
            trimmed_end(s@.take(n as int)) == trimmed_end(s@),
        decreases n,
    {
        assert(s@.take(n as int).drop_last() =~= s@.take(n - 1));
        n = n - 1;
    }
    let (front, _) = s.split_at(n);
    assert(front@ =~= s@.take(n as int));
    copy(front)
}

/// The place of the first `b` in `s`.
pub fn find(s: &[u8], b: u8) -> (r: Option<usize>)
    ensures
        match r {
            Some(i) => i < s@.len() && s@[i as int] == b && !s@.take(i as int).contains(b),
            None => !s@.contains(b),
        },
{
    let mut i: usize = 0;
    while i < s.len()
        invariant
            i <= s.len(),
            forall|k: int| 0 <= k < i ==> s@[k] != b,
        decreases s.len() - i,
    {
        if s[i] == b {
            return Some(i);
        }
        i = i + 1;
    }
    None
}

/// Bytes in dictionary order.
pub open spec fn before(a: Seq<u8>, b: Seq<u8>) -> bool
    decreases a.len(),
{
    if b.len() == 0 {
        false
    } else if a.len() == 0 {
        true
    } else {
        a[0] < b[0] || (a[0] == b[0] && before(a.skip(1), b.skip(1)))
    }
}

/// Whether `a` stands before `b` in dictionary order.
pub fn is_before(a: &[u8], b: &[u8]) -> (r: bool)
    ensures
        r == before(a@, b@),
{
    let mut i: usize = 0;
    assert(a@.skip(0) =~= a@);
    assert(b@.skip(0) =~= b@);
    while i < a.len() && i < b.len() && a[i] == b[i]
        invariant
            i <= a.len(),
            i <= b.len(),
            before(a@, b@) == before(a@.skip(i as int), b@.skip(i as int)),
        decreases a.len() - i,
    {
        assert(a@.skip(i as int).skip(1) =~= a@.skip(i + 1));
        assert(b@.skip(i as int).skip(1) =~= b@.skip(i + 1));
        i = i + 1;
    }
    if i == b.len() {
        false
    } else if i == a.len() {
        true
    } else {
        a[i] < b[i]
    }
}

/// White space at the end goes, byte by byte, and nothing else does: a space, a
/// tab, a newline, a form feed and a carriage return count as such.
pub proof fn only_white_space_is_trimmed(s: Seq<u8>, b: u8)
    ensures
        trimmed_end(s.push(b)) == (if b == 0x20 || b == 0x09 || b == 0x0a || b == 0x0c || b
            == 0x0d {
            trimmed_end(s)
        } else {
            s.push(b)
        }),
        trimmed_end(Seq::<u8>::empty()) == Seq::<u8>::empty(),
{
    assert(s.push(b).drop_last() =~= s);
}

/// One byte string comes before another where, behind what both begin with, it
/// ends or goes on with the smaller byte.
pub proof fn the_first_difference_decides(a: Seq<u8>, b: Seq<u8>)
    ensures
        before(a, b) <==> exists|k: int|
            0 <= k <= a.len() && k <= b.len() && #[trigger] a.take(k) == b.take(k) && k < b.len()
                && (k == a.len() || a[k] < b[k]),
    decreases a.len(),
{
    if a.len() > 0 && b.len() > 0 {
        let x = a.skip(1);
        let y = b.skip(1);
        the_first_difference_decides(x, y);
        if before(a, b) {
            if a[0] < b[0] {
                assert(a.take(0) =~= b.take(0));
            } else {
                let k = choose|k: int|
                    0 <= k <= x.len() && k <= y.len() && #[trigger] x.take(k) == y.take(k) && k
                        < y.len() && (k == x.len() || x[k] < y[k]);
                assert forall|i: int| 0 <= i < k + 1 implies a[i] == b[i] by {
                    if i > 0 {
                        assert(x.take(k)[i - 1] == y.take(k)[i - 1]);
                    }
                }
                assert(a.take(k + 1) =~= b.take(k + 1));
            }
        }
        if exists|k: int|
            0 <= k <= a.len() && k <= b.len() && #[trigger] a.take(k) == b.take(k) && k < b.len()
                && (k == a.len() || a[k] < b[k]) {
            let k = choose|k: int|
                0 <= k <= a.len() && k <= b.len() && #[trigger] a.take(k) == b.take(k) && k
                    < b.len() && (k == a.len() || a[k] < b[k]);
            if k > 0 {
                assert(a.take(k)[0] == b.take(k)[0]);
                assert forall|i: int| 0 <= i < k - 1 implies x[i] == y[i] by {
                    assert(a.take(k)[i + 1] == b.take(k)[i + 1]);
                }
                assert(x.take(k - 1) =~= y.take(k - 1));
            }
        }
    } else if b.len() > 0 {
        assert(a.take(0) =~= b.take(0));
    }
}

/// A prefix and a suffix are what a text begins and ends with, byte for byte.
pub proof fn a_text_begins_and_ends(s: Seq<u8>, part: Seq<u8>)
    ensures
        has_prefix(part + s, part),
        has_suffix(s + part, part),
        has_prefix(s, part) ==> part.len() <= s.len() && forall|i: int|
            0 <= i < part.len() ==> s[i] == #[trigger] part[i],
        has_suffix(s, part) ==> part.len() <= s.len() && forall|i: int|
            0 <= i < part.len() ==> s[s.len() - part.len() + i] == #[trigger] part[i],
{
    assert((part + s).take(part.len() as int) =~= part);
    assert((s + part).skip(s.len() as int) =~= part);
    if has_prefix(s, part) {
        assert forall|i: int| 0 <= i < part.len() implies s[i] == #[trigger] part[i] by {
            assert(s.take(part.len() as int)[i] == s[i]);
        }
    }
    if has_suffix(s, part) {
        assert forall|i: int| 0 <= i < part.len() implies s[s.len() - part.len() + i]
            == #[trigger] part[i] by {
            assert(s.skip(s.len() - part.len())[i] == s[s.len() - part.len() + i]);
        }
    }
}

} // verus!
