//! `rip empty`: which entries go, and what is asked before.
use vstd::prelude::*;
use vstd::string::*;

use crate::bytes::{before, copy, is_before, same};
use crate::cli::Answer;
use crate::dates::{time_is_ordered, DateTime};
use crate::delete::Report;
use crate::load::{dated_is_ordered, Contents, DanglingView, Dated, ItemView, OrphanView, Which};
use crate::sort::{in_order, is_order, sort, sorted, sorted_is_in_order, Ordered};
use crate::table::{byte_hash, Key, Table};
use crate::text::{decimal, escape, escaped, human, human_text, number};

verus! {

// ---------------------------------------------------------------------------
// Candidates and their order
// ---------------------------------------------------------------------------

/// A candidate for deletion: an item or an orphan.
#[derive(Debug)]
pub struct Cand {
    pub date: DateTime,
    /// The place of its trash directory in the list, and its name in `files/`.
    pub key: (usize, Vec<u8>),
    /// Whether it makes one batch with others of the same date. An item does:
    /// its date names one invocation. An orphan is dated by another clock.
    pub batchable: bool,
}

/// Keys in order: by trash directory, then by name.
pub open spec fn key_before(a: (usize, Vec<u8>), b: (usize, Vec<u8>)) -> bool {
    a.0 < b.0 || (a.0 == b.0 && before(a.1@, b.1@))
}

impl Ordered for Cand {
    /// The newest first; of one date, by key.
    open spec fn after(self, other: Cand) -> bool {
        self.date.earlier(other.date) || (self.date == other.date && key_before(
            other.key,
            self.key,
        ))
    }

    fn is_after(&self, other: &Cand) -> (r: bool) {
        if self.date.is_before(&other.date) {
            true
        } else if self.date == other.date {
            other.key.0 < self.key.0 || (other.key.0 == self.key.0 && is_before(
                other.key.1.as_slice(),
                self.key.1.as_slice(),
            ))
        } else {
            false
        }
    }
}

proof fn before_is_ordered(a: Seq<u8>, b: Seq<u8>, c: Seq<u8>)
    ensures
        before(a, b) ==> !before(b, a),
        !before(a, b) && !before(b, c) ==> !before(a, c),
    decreases a.len() + b.len() + c.len(),
{
    if a.len() > 0 && b.len() > 0 && c.len() > 0 {
        before_is_ordered(a.skip(1), b.skip(1), c.skip(1));
    } else if a.len() > 0 && b.len() > 0 {
        before_is_ordered(a.skip(1), b.skip(1), c);
    }
}

/// The order of candidates is one.
pub proof fn candidates_are_ordered()
    ensures
        is_order::<Cand>(),
{
    assert forall|a: Cand, b: Cand| #[trigger] a.after(b) implies !b.after(a) by {
        time_is_ordered(a.date, b.date, a.date);
        before_is_ordered(a.key.1@, b.key.1@, a.key.1@);
        before_is_ordered(b.key.1@, a.key.1@, a.key.1@);
    }
    assert forall|a: Cand, b: Cand, c: Cand|
        #![trigger a.after(b), b.after(c)]
        !a.after(b) && !b.after(c) implies !a.after(c) by {
        time_is_ordered(a.date, b.date, c.date);
        time_is_ordered(c.date, b.date, a.date);
        time_is_ordered(b.date, c.date, a.date);
        time_is_ordered(b.date, a.date, c.date);
        time_is_ordered(a.date, c.date, b.date);
        time_is_ordered(c.date, a.date, b.date);
        before_is_ordered(c.key.1@, b.key.1@, a.key.1@);
    }
}

// ---------------------------------------------------------------------------
// Batches
// ---------------------------------------------------------------------------

/// A sum that stops at the largest number.
pub open spec fn sat(n: int) -> int {
    if n > u64::MAX {
        u64::MAX as int
    } else {
        n
    }
}

/// Both can be batched and share a date: they are of one batch.
pub open spec fn joins(s: Seq<Cand>, i: int, j: int) -> bool {
    s[i].batchable && s[j].batchable && s[i].date == s[j].date
}

/// The first from `j` on that is of one batch with `s[i]`: at the latest `s[i]`.
pub open spec fn first_joined(s: Seq<Cand>, i: int, j: int) -> int
    decreases i - j,
{
    if j >= i {
        i
    } else if joins(s, j, i) {
        j
    } else {
        first_joined(s, i, j + 1)
    }
}

/// Where the batch of `s[i]` begins. A batch is all candidates of one date that
/// can be batched, whatever stands between them; any other candidate is a batch
/// of its own. Of batches with one date the one that begins first comes first.
pub open spec fn head_of(s: Seq<Cand>, i: int) -> int {
    first_joined(s, i, 0)
}

/// The total size of the batch that begins at `h`, of its members below `n`.
pub open spec fn batch_size(s: Seq<Cand>, z: Seq<u64>, h: int, n: int) -> int
    decreases n,
{
    if n <= 0 {
        0
    } else {
        batch_size(s, z, h, n - 1) + (if head_of(s, n - 1) == h {
            z[n - 1] as int
        } else {
            0
        })
    }
}

/// The total size of the batches that begin before `k`, of their members below
/// `n`.
pub open spec fn total_before(s: Seq<Cand>, z: Seq<u64>, k: int, n: int) -> int
    decreases n,
{
    if n <= 0 {
        0
    } else {
        total_before(s, z, k, n - 1) + (if head_of(s, n - 1) < k {
            z[n - 1] as int
        } else {
            0
        })
    }
}

/// Where the first batch begins that brings the total over `max`, of those that
/// begin at `k` or later.
pub open spec fn over_from(s: Seq<Cand>, z: Seq<u64>, k: int, max: int) -> Option<int>
    decreases s.len() - k,
{
    if k >= s.len() {
        None
    } else if sat(total_before(s, z, k + 1, s.len() as int)) > max {
        Some(k)
    } else {
        over_from(s, z, k + 1, max)
    }
}

/// Where the first batch begins that brings the total over `max`.
pub open spec fn over_at(s: Seq<Cand>, z: Seq<u64>, max: int) -> Option<int> {
    over_from(s, z, 0, max)
}

proof fn first_joined_holds(s: Seq<Cand>, i: int, j: int)
    requires
        0 <= j <= i,
    ensures
        j <= first_joined(s, i, j) <= i,
        first_joined(s, i, j) == i || joins(s, first_joined(s, i, j), i),
        forall|k: int| j <= k < first_joined(s, i, j) ==> !#[trigger] joins(s, k, i),
    decreases i - j,
{
    if j < i && !joins(s, j, i) {
        first_joined_holds(s, i, j + 1);
    }
}

/// A batch begins with its first member, which begins its own batch.
pub proof fn a_batch_begins_with_its_first(s: Seq<Cand>, i: int)
    requires
        0 <= i,
    ensures
        0 <= head_of(s, i) <= i,
        head_of(s, i) == i || joins(s, head_of(s, i), i),
        forall|k: int| 0 <= k < head_of(s, i) ==> !#[trigger] joins(s, k, i),
        head_of(s, head_of(s, i)) == head_of(s, i),
{
    first_joined_holds(s, i, 0);
    let h = head_of(s, i);
    first_joined_holds(s, h, 0);
    let g = head_of(s, h);
    if g < h {
        assert(joins(s, g, h));
        assert(joins(s, g, i));
    }
}

/// Two candidates are of one batch just where they can be batched and share a
/// date, wherever they stand.
pub proof fn a_date_makes_a_batch(s: Seq<Cand>, i: int, j: int)
    requires
        0 <= i < j,
    ensures
        head_of(s, i) == head_of(s, j) <==> joins(s, i, j),
        head_of(s, i) == head_of(s, j) <==> s[i].batchable && s[j].batchable && s[i].date
            == s[j].date,
{
    a_batch_begins_with_its_first(s, i);
    a_batch_begins_with_its_first(s, j);
    let a = head_of(s, i);
    let b = head_of(s, j);
    if joins(s, i, j) {
        assert(joins(s, a, j));
        if b < j {
            assert(joins(s, b, i));
        }
    }
}

proof fn totals_add_up(s: Seq<Cand>, z: Seq<u64>, k: int, n: int)
    ensures
        total_before(s, z, k + 1, n) == total_before(s, z, k, n) + batch_size(s, z, k, n),
        0 <= batch_size(s, z, k, n),
    decreases n,
{
    if n > 0 {
        totals_add_up(s, z, k, n - 1);
    }
}

proof fn totals_grow(s: Seq<Cand>, z: Seq<u64>, j: int, k: int, n: int)
    requires
        j <= k,
    ensures
        total_before(s, z, j, n) <= total_before(s, z, k, n),
    decreases k - j,
{
    if j < k {
        totals_grow(s, z, j, k - 1, n);
        totals_add_up(s, z, k - 1, n);
    }
}

proof fn nothing_before_the_first(s: Seq<Cand>, z: Seq<u64>, n: int)
    ensures
        total_before(s, z, 0, n) == 0,
    decreases n,
{
    if n > 0 {
        nothing_before_the_first(s, z, n - 1);
        a_batch_begins_with_its_first(s, n - 1);
    }
}

proof fn totals_are_local(s: Seq<Cand>, a: Seq<u64>, b: Seq<u64>, k: int, n: int)
    requires
        forall|j: int| 0 <= j < n && head_of(s, j) < k ==> a[j] == #[trigger] b[j],
    ensures
        total_before(s, a, k, n) == total_before(s, b, k, n),
    decreases n,
{
    if n > 0 {
        totals_are_local(s, a, b, k, n - 1);
    }
}

proof fn batch_size_is_local(s: Seq<Cand>, a: Seq<u64>, b: Seq<u64>, h: int, n: int)
    requires
        forall|j: int| 0 <= j < n && head_of(s, j) == h ==> a[j] == #[trigger] b[j],
    ensures
        batch_size(s, a, h, n) == batch_size(s, b, h, n),
    decreases n,
{
    if n > 0 {
        batch_size_is_local(s, a, b, h, n - 1);
    }
}

/// Without members from `m` on, a batch is as large as it is below `m`.
proof fn batch_ends(s: Seq<Cand>, z: Seq<u64>, h: int, m: int, n: int)
    requires
        m <= n,
        forall|j: int| m <= j < n ==> #[trigger] head_of(s, j) != h,
    ensures
        batch_size(s, z, h, n) == batch_size(s, z, h, m),
    decreases n - m,
{
    if m < n {
        batch_ends(s, z, h, m, n - 1);
    }
}

/// Before its first member a batch has no size.
proof fn batch_starts(s: Seq<Cand>, z: Seq<u64>, h: int, n: int)
    requires
        n <= h,
    ensures
        batch_size(s, z, h, n) == 0,
    decreases n,
{
    if n > 0 {
        batch_starts(s, z, h, n - 1);
        a_batch_begins_with_its_first(s, n - 1);
    }
}

/// What is not the first of a batch begins none.
proof fn no_batch_begins_inside(s: Seq<Cand>, z: Seq<u64>, h: int, n: int)
    requires
        0 <= h,
        head_of(s, h) != h,
    ensures
        batch_size(s, z, h, n) == 0,
    decreases n,
{
    if n > 0 {
        no_batch_begins_inside(s, z, h, n - 1);
        a_batch_begins_with_its_first(s, n - 1);
    }
}

proof fn over_is(s: Seq<Cand>, z: Seq<u64>, j: int, k: int, max: int)
    requires
        0 <= j <= k <= s.len(),
        sat(total_before(s, z, k, s.len() as int)) <= max,
        k < s.len() ==> sat(total_before(s, z, k + 1, s.len() as int)) > max,
    ensures
        over_from(s, z, j, max) == (if k < s.len() {
            Some(k)
        } else {
            None
        }),
    decreases k - j,
{
    if j < k {
        totals_grow(s, z, j + 1, k, s.len() as int);
        over_is(s, z, j + 1, k, max);
    }
}

proof fn over_from_holds(s: Seq<Cand>, z: Seq<u64>, j: int, max: int)
    requires
        0 <= j <= s.len(),
        sat(total_before(s, z, j, s.len() as int)) <= max,
    ensures
        match over_from(s, z, j, max) {
            Some(k) => j <= k < s.len() && sat(total_before(s, z, k, s.len() as int)) <= max && sat(
                total_before(s, z, k + 1, s.len() as int),
            ) > max,
            None => sat(total_before(s, z, s.len() as int, s.len() as int)) <= max,
        },
    decreases s.len() - j,
{
    if j < s.len() && sat(total_before(s, z, j + 1, s.len() as int)) <= max {
        over_from_holds(s, z, j + 1, max);
    }
}

// ---------------------------------------------------------------------------
// Selection
// ---------------------------------------------------------------------------

/// Whether the size of a candidate has to be known: with a limit, that of every
/// one up to the batch that goes over it; without one, none.
pub open spec fn measured(s: Seq<Cand>, z: Seq<u64>, max: Option<u64>, i: int) -> bool {
    match max {
        None => false,
        Some(m) => match over_at(s, z, m as int) {
            Some(k) => head_of(s, i) <= k,
            None => true,
        },
    }
}

/// Whether the candidate at `i` goes: all go without a filter, those older than
/// the cutoff, and those of the batch that goes over the limit and of every batch
/// behind it.
pub open spec fn goes(
    s: Seq<Cand>,
    cutoff: Option<DateTime>,
    max: Option<u64>,
    over: Option<int>,
    i: int,
) -> bool {
    ||| cutoff is None && max is None
    ||| (cutoff matches Some(c) && s[i].date.earlier(c))
    ||| (over matches Some(k) && head_of(s, i) >= k)
}

/// The places below `n` of the candidates that go, in order.
pub open spec fn going(
    s: Seq<Cand>,
    cutoff: Option<DateTime>,
    max: Option<u64>,
    over: Option<int>,
    n: int,
) -> Seq<usize>
    decreases n,
{
    if n <= 0 {
        Seq::empty()
    } else {
        let front = going(s, cutoff, max, over, n - 1);
        if goes(s, cutoff, max, over, n - 1) {
            front.push((n - 1) as usize)
        } else {
            front
        }
    }
}

/// The places of the candidates that go, of candidates in order with these
/// sizes; or, where the newest batch alone is over the limit, its size and the
/// limit.
pub open spec fn selection(
    s: Seq<Cand>,
    z: Seq<u64>,
    cutoff: Option<DateTime>,
    max: Option<u64>,
) -> Result<Seq<usize>, (u64, u64)> {
    let over = match max {
        Some(m) => over_at(s, z, m as int),
        None => None,
    };
    if over == Some(0int) {
        Err((sat(batch_size(s, z, 0, s.len() as int)) as u64, max->0))
    } else {
        Ok(going(s, cutoff, max, over, s.len() as int))
    }
}

/// What selecting came to.
pub open spec fn selection_view(r: Result<Vec<usize>, (u64, u64)>) -> Result<
    Seq<usize>,
    (u64, u64),
> {
    match r {
        Ok(v) => Ok(v@),
        Err(e) => Err(e),
    }
}

/// `z` are sizes that `size` gave, as far as they were asked for.
pub open spec fn sizes_of<F: Fn(&Cand) -> u64>(
    size: F,
    s: Seq<Cand>,
    z: Seq<u64>,
    max: Option<u64>,
) -> bool {
    &&& z.len() == s.len()
    &&& forall|i: int|
        0 <= i < s.len() && measured(s, z, max, i) ==> size.ensures((&s[i],), #[trigger] z[i])
}

/// With a limit, and where all batches before that of `s[i]` were measured as in
/// `z` and fit: then the size of `s[i]` is needed.
pub open spec fn needed<F: Fn(&Cand) -> u64>(
    size: F,
    s: Seq<Cand>,
    z: Seq<u64>,
    max: Option<u64>,
    i: int,
) -> bool {
    &&& 0 <= i < s.len()
    &&& z.len() == s.len()
    &&& max is Some
    &&& sat(total_before(s, z, head_of(s, i), s.len() as int)) <= max->0
    &&& forall|j: int|
        0 <= j < s.len() && head_of(s, j) < head_of(s, i) ==> size.ensures(
            (&s[j],),
            #[trigger] z[j],
        )
}

/// `size` may be asked where a size is needed. Nowhere else is it asked: not
/// without a limit, and of nothing behind the batch that goes over.
pub open spec fn answers<F: Fn(&Cand) -> u64>(size: F, s: Seq<Cand>, max: Option<u64>) -> bool {
    forall|z: Seq<u64>, i: int| #[trigger]
        needed(size, s, z, max, i) ==> size.requires((&s[i],))
}

/// Sizes as far as they are known, the others taken as nothing.
pub open spec fn filled(sizes: Seq<Option<u64>>) -> Seq<u64> {
    Seq::new(
        sizes.len(),
        |i: int|
            match sizes[i] {
                Some(x) => x,
                None => 0u64,
            },
    )
}

/// What is known of the sizes `z`: those that had to be measured.
pub open spec fn as_measured(
    sizes: Seq<Option<u64>>,
    s: Seq<Cand>,
    z: Seq<u64>,
    max: Option<u64>,
) -> bool {
    &&& sizes.len() == s.len()
    &&& z.len() == s.len()
    &&& forall|i: int|
        0 <= i < s.len() ==> #[trigger] sizes[i] == (if measured(s, z, max, i) {
            Some(z[i])
        } else {
            None
        })
}

/// No candidate is newer than one before it.
pub open spec fn by_date(s: Seq<Cand>) -> bool {
    forall|i: int, j: int|
        #![trigger s[i], s[j]]
        0 <= i < j < s.len() ==> !s[i].date.earlier(s[j].date)
}

fn plus(a: u64, b: u64) -> (r: u64)
    ensures
        r == sat(a + b),
{
    match a.checked_add(b) {
        Some(x) => x,
        None => u64::MAX,
    }
}

/// Where dates only fall, what lies between two of one date has that date.
proof fn between_one_date(s: Seq<Cand>, i: int, j: int, k: int)
    requires
        by_date(s),
        0 <= i <= j <= k < s.len(),
        s[i].date == s[k].date,
    ensures
        s[j].date == s[i].date,
{
    if i < j && j < k {
        time_is_ordered(s[i].date, s[j].date, s[i].date);
        assert(!s[i].date.earlier(s[j].date));
        assert(!s[j].date.earlier(s[k].date));
    }
}

/// Where the batch of each candidate begins.
fn batch_heads(c: &Vec<Cand>) -> (v: Vec<usize>)
    requires
        by_date(c@),
    ensures
        v@.len() == c@.len(),
        forall|i: int| 0 <= i < c@.len() ==> #[trigger] v@[i] == head_of(c@, i),
{
    let ghost s = c@;
    let mut v: Vec<usize> = Vec::new();
    let mut last: Option<usize> = None;
    let mut i: usize = 0;
    while i < c.len()
        invariant
            i <= c.len(),
            s == c@,
            by_date(s),
            v@.len() == i,
            forall|k: int| 0 <= k < i ==> #[trigger] v@[k] == head_of(s, k),
            match last {
                None => forall|k: int| 0 <= k < i ==> !(#[trigger] s[k]).batchable,
                Some(h) => h < i && s[h as int].batchable && head_of(s, h as int) == h && (forall|
                    k: int,
                |
                    h <= k < i && (#[trigger] s[k]).batchable ==> s[k].date == s[h as int].date),
            },
        decreases c.len() - i,
    {
        let mut head: usize = i;
        proof {
            a_batch_begins_with_its_first(s, i as int);
        }
        if c[i].batchable {
            if let Some(h) = last {
                if c[h].date == c[i].date {
                    head = h;
                    proof {
                        assert(joins(s, h as int, i as int));
                        a_date_makes_a_batch(s, h as int, i as int);
                    }
                } else {
                    proof {
                        let g = head_of(s, i as int);
                        if g < i {
                            assert(joins(s, g, i as int));
                            assert(s[g].batchable);
                            if g < h {
                                between_one_date(s, g, h as int, i as int);
                            }
                        }
                    }
                }
            }
            if head == i {
                last = Some(i);
            }
        }
        v.push(head);
        i = i + 1;
    }
    v
}

fn nothing_known(n: usize) -> (v: Vec<Option<u64>>)
    ensures
        v@.len() == n,
        forall|i: int| 0 <= i < n ==> #[trigger] v@[i] is None,
{
    let mut v: Vec<Option<u64>> = Vec::new();
    while v.len() < n
        invariant
            v@.len() <= n,
            forall|i: int| 0 <= i < v@.len() ==> #[trigger] v@[i] is None,
        decreases n - v.len(),
    {
        v.push(None);
    }
    v
}

/// The sizes known after the batches before `h`, and of the batch at `h` the
/// members below `m`: each what `size` gave.
spec fn known_up_to<F: Fn(&Cand) -> u64>(
    size: F,
    s: Seq<Cand>,
    sizes: Seq<Option<u64>>,
    h: int,
    m: int,
) -> bool {
    &&& sizes.len() == s.len()
    &&& forall|k: int|
        0 <= k < s.len() ==> (#[trigger] sizes[k] is Some <==> head_of(s, k) < h || (head_of(s, k)
            == h && k < m))
    &&& forall|k: int|
        0 <= k < s.len() && (#[trigger] sizes[k]) is Some ==> size.ensures((&s[k],), sizes[k]->0)
}

/// Measures the batch that begins at `h`, where those before it fit; gives its
/// total.
fn measure_batch<F: Fn(&Cand) -> u64>(
    c: &Vec<Cand>,
    heads: &Vec<usize>,
    h: usize,
    max: u64,
    size: &F,
    sizes: &mut Vec<Option<u64>>,
) -> (batch: u64)
    requires
        h < c@.len(),
        by_date(c@),
        heads@.len() == c@.len(),
        forall|i: int| 0 <= i < c@.len() ==> #[trigger] heads@[i] == head_of(c@, i),
        head_of(c@, h as int) == h,
        answers(*size, c@, Some(max)),
        known_up_to(*size, c@, old(sizes)@, h as int, 0),
        sat(total_before(c@, filled(old(sizes)@), h as int, c@.len() as int)) <= max,
    ensures
        known_up_to(*size, c@, final(sizes)@, h + 1, 0),
        total_before(c@, filled(final(sizes)@), h as int, c@.len() as int) == total_before(
            c@,
            filled(old(sizes)@),
            h as int,
            c@.len() as int,
        ),
        batch == sat(batch_size(c@, filled(final(sizes)@), h as int, c@.len() as int)),
{
    let ghost s = c@;
    let ghost n = c@.len() as int;
    let ghost first = filled(sizes@);
    let mut batch: u64 = 0;
    let mut j: usize = h;
    proof {
        batch_starts(s, first, h as int, h as int);
        assert forall|k: int| 0 <= k < h implies #[trigger] head_of(s, k) != h by {
            a_batch_begins_with_its_first(s, k);
        }
    }
    while j < c.len() && c[j].date == c[h].date
        invariant
            h <= j <= c.len(),
            h < c.len(),
            s == c@,
            n == s.len(),
            heads@.len() == s.len(),
            forall|i: int| 0 <= i < s.len() ==> #[trigger] heads@[i] == head_of(s, i),
            answers(*size, s, Some(max)),
            known_up_to(*size, s, sizes@, h as int, j as int),
            total_before(s, filled(sizes@), h as int, n) == total_before(s, first, h as int, n),
            sat(total_before(s, first, h as int, n)) <= max,
            batch == sat(batch_size(s, filled(sizes@), h as int, j as int)),
        decreases c.len() - j,
    {
        let ghost was = sizes@;
        if heads[j] == h {
            assert(needed(*size, s, filled(was), Some(max), j as int)) by {
                assert forall|k: int| 0 <= k < n && head_of(s, k) < head_of(
                    s,
                    j as int,
                ) implies size.ensures((&s[k],), #[trigger] filled(was)[k]) by {
                    assert(was[k] is Some);
                }
            }
            let one: u64 = size(&c[j]);
            sizes.set(j, Some(one));
            batch = plus(batch, one);
        }
        proof {
            let now = sizes@;
            assert forall|k: int| 0 <= k < n && k != j implies now[k] == was[k] by {}
            totals_are_local(s, filled(was), filled(now), h as int, n);
            batch_size_is_local(s, filled(was), filled(now), h as int, j as int);
        }
        j = j + 1;
    }
    proof {
        let z = filled(sizes@);
        assert forall|k: int| j <= k < n implies #[trigger] head_of(s, k) != h by {
            if head_of(s, k) == h {
                a_batch_begins_with_its_first(s, k);
                assert(s[h as int].date == s[k].date);
                between_one_date(s, h as int, j as int, k);
            }
        }
        batch_ends(s, z, h as int, j as int, n);
        assert forall|k: int| 0 <= k < n implies (#[trigger] sizes@[k] is Some <==> head_of(s, k)
            < h + 1 || (head_of(s, k) == h + 1 && k < 0)) by {
            if k >= j {
                assert(head_of(s, k) != h);
            }
        }
    }
    batch
}

/// Finds the batch that goes over the limit; measures no further than that
/// batch. Gives its place, its own total, and the sizes measured.
fn find_over<F: Fn(&Cand) -> u64>(c: &Vec<Cand>, heads: &Vec<usize>, max: u64, size: &F) -> (r: (
    Option<(usize, u64)>,
    Vec<Option<u64>>,
))
    requires
        by_date(c@),
        heads@.len() == c@.len(),
        forall|i: int| 0 <= i < c@.len() ==> #[trigger] heads@[i] == head_of(c@, i),
        answers(*size, c@, Some(max)),
    ensures
        as_measured(r.1@, c@, filled(r.1@), Some(max)),
        sizes_of(*size, c@, filled(r.1@), Some(max)),
        match r.0 {
            Some(o) => over_at(c@, filled(r.1@), max as int) == Some(o.0 as int) && o.1 == sat(
                batch_size(c@, filled(r.1@), o.0 as int, c@.len() as int),
            ),
            None => over_at(c@, filled(r.1@), max as int) is None,
        },
{
    let ghost s = c@;
    let ghost n = c@.len() as int;
    let mut sizes = nothing_known(c.len());
    let mut total: u64 = 0;
    let mut i: usize = 0;
    proof {
        nothing_before_the_first(s, filled(sizes@), n);
        assert forall|k: int| 0 <= k < n implies #[trigger] head_of(s, k) >= 0 by {
            a_batch_begins_with_its_first(s, k);
        }
    }
    while i < c.len()
        invariant
            i <= c.len(),
            s == c@,
            n == s.len(),
            by_date(s),
            heads@.len() == s.len(),
            forall|k: int| 0 <= k < s.len() ==> #[trigger] heads@[k] == head_of(s, k),
            answers(*size, s, Some(max)),
            known_up_to(*size, s, sizes@, i as int, 0),
            total == sat(total_before(s, filled(sizes@), i as int, n)),
            total <= max,
        decreases c.len() - i,
    {
        if heads[i] == i {
            let batch: u64 = measure_batch(c, heads, i, max, size, &mut sizes);
            let sum: u64 = plus(total, batch);
            proof {
                totals_add_up(s, filled(sizes@), i as int, n);
                nothing_before_the_first(s, filled(sizes@), n);
                totals_grow(s, filled(sizes@), 0, i as int, n);
            }
            if sum > max {
                proof {
                    over_is(s, filled(sizes@), 0, i as int, max as int);
                    found_sizes(*size, s, sizes@, i + 1, max);
                }
                return (Some((i, batch)), sizes);
            }
            total = sum;
        } else {
            proof {
                let z = filled(sizes@);
                totals_add_up(s, z, i as int, n);
                no_batch_begins_inside(s, z, i as int, n);
                assert forall|k: int| 0 <= k < n implies #[trigger] head_of(s, k) != i by {
                    a_batch_begins_with_its_first(s, k);
                }
            }
        }
        i = i + 1;
    }
    proof {
        over_is(s, filled(sizes@), 0, n, max as int);
        found_sizes(*size, s, sizes@, n, max);
    }
    (None, sizes)
}

/// The sizes known in the end are those that had to be measured.
proof fn found_sizes<F: Fn(&Cand) -> u64>(
    size: F,
    s: Seq<Cand>,
    sizes: Seq<Option<u64>>,
    h: int,
    max: u64,
)
    requires
        known_up_to(size, s, sizes, h, 0),
        over_at(s, filled(sizes), max as int) == Some(h - 1) || (over_at(
            s,
            filled(sizes),
            max as int,
        ) is None && h == s.len()),
    ensures
        as_measured(sizes, s, filled(sizes), Some(max)),
        sizes_of(size, s, filled(sizes), Some(max)),
{
    let z = filled(sizes);
    assert forall|i: int| 0 <= i < s.len() implies (#[trigger] sizes[i] is Some <==> measured(
        s,
        z,
        Some(max),
        i,
    )) by {
        a_batch_begins_with_its_first(s, i);
    }
    assert forall|i: int| 0 <= i < s.len() && measured(s, z, Some(max), i) implies size.ensures(
        (&s[i],),
        #[trigger] z[i],
    ) by {
        assert(sizes[i] is Some);
    }
}

/// Sorts the candidates, newest first and of one date by key, and selects those
/// that go. `max` is a limit on what stays; `size` is asked no further than the
/// limit needs, and what it said is handed back too.
pub fn select_sized<F: Fn(&Cand) -> u64>(
    c: &mut Vec<Cand>,
    cutoff: Option<DateTime>,
    max: Option<u64>,
    size: &F,
) -> (r: (Result<Vec<usize>, (u64, u64)>, Vec<Option<u64>>))
    requires
        answers(*size, sorted(old(c)@), max),
    ensures
        final(c)@ == sorted(old(c)@),
        exists|z: Seq<u64>|
            #![trigger selection(final(c)@, z, cutoff, max)]
            sizes_of(*size, final(c)@, z, max) && as_measured(r.1@, final(c)@, z, max)
                && selection_view(r.0) == selection(final(c)@, z, cutoff, max),
{
    proof {
        candidates_are_ordered();
        newest_come_first(c@);
    }
    sort(c);
    let ghost s = c@;
    let mut over: Option<(usize, u64)> = None;
    let mut heads: Vec<usize> = Vec::new();
    let mut sizes: Vec<Option<u64>> = nothing_known(c.len());
    if let Some(m) = max {
        heads = batch_heads(c);
        let found = find_over(c, &heads, m, size);
        over = found.0;
        sizes = found.1;
    }
    let ghost z = filled(sizes@);
    let ghost at: Option<int> = match over {
        Some(o) => Some(o.0 as int),
        None => None,
    };
    if let Some((start, batch)) = over {
        if start == 0 {
            let m: u64 = match max {
                Some(m) => m,
                None => 0,
            };
            assert(selection(s, z, cutoff, max) == Err::<Seq<usize>, (u64, u64)>((batch, m)));
            return (Err((batch, m)), sizes);
        }
    }
    let all = cutoff.is_none() && max.is_none();
    let mut out: Vec<usize> = Vec::new();
    let mut i: usize = 0;
    while i < c.len()
        invariant
            i <= c.len(),
            c@ == s,
            all == (cutoff is None && max is None),
            at == (match over {
                Some(o) => Some(o.0 as int),
                None => None,
            }),
            over is Some ==> heads@.len() == s.len() && (forall|k: int|
                0 <= k < s.len() ==> #[trigger] heads@[k] == head_of(s, k)),
            out@ == going(s, cutoff, max, at, i as int),
        decreases c.len() - i,
    {
        let old = match cutoff {
            Some(cut) => c[i].date.is_before(&cut),
            None => false,
        };
        let beyond = match over {
            Some((start, _)) => heads[i] >= start,
            None => false,
        };
        if all || old || beyond {
            out.push(i);
        }
        i = i + 1;
    }
    assert(selection(s, z, cutoff, max) == Ok::<Seq<usize>, (u64, u64)>(out@));
    (Ok(out), sizes)
}

/// Sorts the candidates, newest first and of one date by key, and gives the
/// places of those that go. Without a filter all go. `cutoff`: those dated before
/// it. `max`: candidates are kept batch by batch, from the newest on, while their
/// total is at most `max`; the first batch that goes over and every batch behind
/// it goes, so that no batch is split by size. With both, what either says goes.
/// Where the newest batch alone is over `max`, nothing goes: the error is its size
/// and `max`.
pub fn select_for_empty<F: Fn(&Cand) -> u64>(
    c: &mut Vec<Cand>,
    cutoff: Option<DateTime>,
    max: Option<u64>,
    size: F,
) -> (r: Result<Vec<usize>, (u64, u64)>)
    requires
        answers(size, sorted(old(c)@), max),
    ensures
        final(c)@ == sorted(old(c)@),
        exists|z: Seq<u64>|
            #![trigger selection(final(c)@, z, cutoff, max)]
            sizes_of(size, final(c)@, z, max) && selection_view(r) == selection(
                final(c)@,
                z,
                cutoff,
                max,
            ),
{
    select_sized(c, cutoff, max, &size).0
}

// ---------------------------------------------------------------------------
// Laws of the selection
// ---------------------------------------------------------------------------

/// The candidates come out newest first, those of one date by key, none lost and
/// none added.
pub proof fn newest_come_first(c: Seq<Cand>)
    ensures
        sorted(c).to_multiset() == c.to_multiset(),
        sorted(c).len() == c.len(),
        by_date(sorted(c)),
        forall|i: int, j: int|
            #![trigger sorted(c)[i], sorted(c)[j]]
            0 <= i < j < sorted(c).len() && sorted(c)[i].date == sorted(c)[j].date ==> !key_before(
                sorted(c)[j].key,
                sorted(c)[i].key,
            ),
{
    candidates_are_ordered();
    sorted_is_in_order(c);
}

proof fn before_is_total(a: Seq<u8>, b: Seq<u8>)
    requires
        a != b,
    ensures
        before(a, b) || before(b, a),
    decreases a.len(),
{
    if a.len() > 0 && b.len() > 0 {
        if a[0] == b[0] {
            if a.skip(1) == b.skip(1) {
                assert(seq![a[0]] + a.skip(1) =~= a);
                assert(seq![b[0]] + b.skip(1) =~= b);
            }
            before_is_total(a.skip(1), b.skip(1));
        }
    } else {
        assert(a.len() == 0 && b.len() == 0 ==> a =~= b);
    }
}

proof fn one_order(a: Seq<Cand>, b: Seq<Cand>)
    requires
        in_order(a),
        in_order(b),
        a.to_multiset() == b.to_multiset(),
        forall|i: int, j: int|
            #![trigger a[i], a[j]]
            0 <= i < a.len() && 0 <= j < a.len() && a[i] != a[j] ==> key_view(a[i].key) != key_view(
                a[j].key,
            ),
    ensures
        a == b,
    decreases a.len(),
{
    broadcast use vstd::seq_lib::group_to_multiset_ensures;

    assert(a.to_multiset().len() == a.len() && b.to_multiset().len() == b.len());
    if a.len() > 0 {
        let x = a.last();
        let y = b.last();
        assert(a.contains(x) && b.contains(y));
        assert(a.to_multiset().count(y) > 0 && b.to_multiset().count(x) > 0);
        assert(a.contains(y) && b.contains(x));
        let i = choose|i: int| 0 <= i < a.len() && a[i] == y;
        let j = choose|j: int| 0 <= j < b.len() && b[j] == x;
        if x != y {
            assert(!a[i].after(a[a.len() - 1]));
            assert(!b[j].after(b[b.len() - 1]));
            time_is_ordered(x.date, y.date, x.date);
            assert(key_view(a[i].key) != key_view(a[a.len() - 1].key));
            if x.key.0 == y.key.0 {
                before_is_total(x.key.1@, y.key.1@);
            }
        }
        let f = a.drop_last();
        let g = b.drop_last();
        assert(f.push(x) =~= a);
        assert(g.push(x) =~= b);
        assert(f.to_multiset() =~= g.to_multiset()) by {
            assert(a.to_multiset() == f.to_multiset().insert(x));
            assert(b.to_multiset() == g.to_multiset().insert(x));
            assert(f.to_multiset().insert(x).remove(x) =~= f.to_multiset());
            assert(g.to_multiset().insert(x).remove(x) =~= g.to_multiset());
        }
        assert forall|i: int, j: int|
            #![trigger f[i], f[j]]
            0 <= i < f.len() && 0 <= j < f.len() && f[i] != f[j] implies key_view(f[i].key)
            != key_view(f[j].key) by {
            assert(f[i] == a[i] && f[j] == a[j]);
        }
        assert(in_order(f)) by {
            assert forall|i: int, j: int|
                #![trigger f[i], f[j]]
                0 <= i < j < f.len() implies !f[i].after(f[j]) by {
                assert(f[i] == a[i] && f[j] == a[j]);
            }
        }
        assert(in_order(g)) by {
            assert forall|i: int, j: int|
                #![trigger g[i], g[j]]
                0 <= i < j < g.len() implies !g[i].after(g[j]) by {
                assert(g[i] == b[i] && g[j] == b[j]);
            }
        }
        one_order(f, g);
    }
}

/// Where keys differ, the order in which the candidates were found makes no
/// difference to the order in which they come out.
pub proof fn the_order_is_one(a: Seq<Cand>, b: Seq<Cand>)
    requires
        a.to_multiset() == b.to_multiset(),
        forall|i: int, j: int|
            #![trigger a[i], a[j]]
            0 <= i < j < a.len() ==> key_view(a[i].key) != key_view(a[j].key),
    ensures
        sorted(a) == sorted(b),
{
    broadcast use vstd::seq_lib::group_to_multiset_ensures;

    candidates_are_ordered();
    sorted_is_in_order(a);
    sorted_is_in_order(b);
    let s = sorted(a);
    assert forall|i: int, j: int|
        #![trigger s[i], s[j]]
        0 <= i < s.len() && 0 <= j < s.len() && s[i] != s[j] implies key_view(s[i].key)
        != key_view(s[j].key) by {
        assert(s.contains(s[i]) && s.contains(s[j]));
        assert(a.to_multiset().count(s[i]) > 0 && a.to_multiset().count(s[j]) > 0);
        assert(a.contains(s[i]) && a.contains(s[j]));
        let x = choose|x: int| 0 <= x < a.len() && a[x] == s[i];
        let y = choose|y: int| 0 <= y < a.len() && a[y] == s[j];
        if x < y {
            assert(key_view(a[x].key) != key_view(a[y].key));
        } else {
            assert(key_view(a[y].key) != key_view(a[x].key));
        }
    }
    one_order(s, sorted(b));
}

/// Items of one invocation stay or go together: no limit ever falls between two
/// candidates that can be batched and share a date, whatever else is of that
/// date.
pub proof fn batches_are_not_split(s: Seq<Cand>, z: Seq<u64>, max: int, i: int, j: int)
    requires
        0 <= i < j < s.len(),
        s[i].batchable,
        s[j].batchable,
        s[i].date == s[j].date,
    ensures
        head_of(s, i) == head_of(s, j),
        over_at(s, z, max) matches Some(k) ==> (head_of(s, i) >= k <==> head_of(s, j) >= k),
{
    a_date_makes_a_batch(s, i, j);
}

/// What a limit keeps fits the limit, and one batch more would not. What is kept
/// are the batches that begin before the one that goes over.
pub proof fn what_stays_fits(s: Seq<Cand>, z: Seq<u64>, max: u64)
    ensures
        match over_at(s, z, max as int) {
            Some(k) => 0 <= k < s.len() && head_of(s, k) == k && sat(
                total_before(s, z, k, s.len() as int),
            ) <= max && sat(
                total_before(s, z, k, s.len() as int) + batch_size(s, z, k, s.len() as int),
            ) > max,
            None => sat(total_before(s, z, s.len() as int, s.len() as int)) <= max,
        },
{
    nothing_before_the_first(s, z, s.len() as int);
    over_from_holds(s, z, 0, max as int);
    if let Some(k) = over_at(s, z, max as int) {
        totals_add_up(s, z, k, s.len() as int);
        if head_of(s, k) != k {
            no_batch_begins_inside(s, z, k, s.len() as int);
        }
    }
}

/// The total of the batches that begin before a place is the sum of the sizes of
/// their members, each counted once; and so is the size of a batch.
pub proof fn totals_are_sums(s: Seq<Cand>, z: Seq<u64>, k: int, n: nat)
    ensures
        total_before(s, z, k, n as int) == Seq::new(
            n,
            |i: int|
                if head_of(s, i) < k {
                    z[i] as int
                } else {
                    0
                },
        ).fold_left(0int, |a: int, x: int| a + x),
        batch_size(s, z, k, n as int) == Seq::new(
            n,
            |i: int|
                if head_of(s, i) == k {
                    z[i] as int
                } else {
                    0
                },
        ).fold_left(0int, |a: int, x: int| a + x),
    decreases n,
{
    let before = |i: int|
        if head_of(s, i) < k {
            z[i] as int
        } else {
            0
        };
    let within = |i: int|
        if head_of(s, i) == k {
            z[i] as int
        } else {
            0
        };
    if n > 0 {
        let m = (n - 1) as nat;
        totals_are_sums(s, z, k, m);
        assert(Seq::new(n, before).drop_last() =~= Seq::new(m, before));
        assert(Seq::new(n, within).drop_last() =~= Seq::new(m, within));
    }
}

/// A limit refuses to choose only where the newest batch alone is over it, and
/// says by how much: its size and the limit. Without a limit nothing is refused.
pub proof fn only_the_newest_batch_is_too_large(
    s: Seq<Cand>,
    z: Seq<u64>,
    cutoff: Option<DateTime>,
    max: Option<u64>,
)
    ensures
        selection(s, z, cutoff, max) is Err <==> max is Some && s.len() > 0 && sat(
            batch_size(s, z, 0, s.len() as int),
        ) > max->0,
        selection(s, z, cutoff, max) matches Err(e) ==> max == Some(e.1) && e.0 == sat(
            batch_size(s, z, 0, s.len() as int),
        ),
{
    nothing_before_the_first(s, z, s.len() as int);
    totals_add_up(s, z, 0, s.len() as int);
    if let Some(m) = max {
        what_stays_fits(s, z, m);
    }
}

/// Where no orphan lies between items of one date, what a limit lets go is all
/// from some place on.
pub proof fn what_goes_is_the_older_end(s: Seq<Cand>, z: Seq<u64>, max: u64, i: int)
    requires
        0 <= i < s.len(),
        forall|a: int, b: int, c: int|
            #![trigger joins(s, a, c), s[b]]
            0 <= a < b < c < s.len() && joins(s, a, c) ==> joins(s, a, b),
    ensures
        over_at(s, z, max as int) matches Some(k) ==> (head_of(s, i) >= k <==> i >= k),
{
    what_stays_fits(s, z, max);
    a_batch_begins_with_its_first(s, i);
    if let Some(k) = over_at(s, z, max as int) {
        let h = head_of(s, i);
        if h < k && k <= i {
            a_batch_begins_with_its_first(s, k);
            assert(joins(s, h, i));
            if k < i {
                let b = s[k];
                assert(joins(s, h, k));
            }
        }
    }
}

proof fn going_holds(
    s: Seq<Cand>,
    cutoff: Option<DateTime>,
    max: Option<u64>,
    over: Option<int>,
    n: int,
    i: usize,
)
    requires
        0 <= n <= s.len(),
        s.len() <= usize::MAX,
    ensures
        going(s, cutoff, max, over, n).contains(i) <==> i < n && goes(
            s,
            cutoff,
            max,
            over,
            i as int,
        ),
    decreases n,
{
    if n > 0 {
        going_holds(s, cutoff, max, over, n - 1, i);
        let front = going(s, cutoff, max, over, n - 1);
        let all = going(s, cutoff, max, over, n);
        if front.contains(i) {
            let k = choose|k: int| 0 <= k < front.len() && front[k] == i;
            assert(all[k] == i);
        }
        if goes(s, cutoff, max, over, n - 1) {
            assert(all[front.len() as int] == (n - 1) as usize);
            if all.contains(i) && !front.contains(i) {
                let k = choose|k: int| 0 <= k < all.len() && all[k] == i;
                assert(k == front.len() || front[k] == i);
            }
        }
    }
}

/// Just those candidates are selected that some filter says go; without a
/// filter, all of them.
pub proof fn selected_are_those_that_go(
    s: Seq<Cand>,
    z: Seq<u64>,
    cutoff: Option<DateTime>,
    max: Option<u64>,
    i: usize,
)
    requires
        s.len() <= usize::MAX,
        selection(s, z, cutoff, max) is Ok,
    ensures
        selection(s, z, cutoff, max)->Ok_0.contains(i) <==> i < s.len() && ((cutoff is None && max
            is None) || (cutoff matches Some(c) && s[i as int].date.earlier(c)) || (max matches Some(
            m,
        ) && (over_at(s, z, m as int) matches Some(k) && head_of(s, i as int) >= k))),
{
    let over = match max {
        Some(m) => over_at(s, z, m as int),
        None => None,
    };
    going_holds(s, cutoff, max, over, s.len() as int, i);
}

proof fn going_in_range(
    s: Seq<Cand>,
    cutoff: Option<DateTime>,
    max: Option<u64>,
    over: Option<int>,
    n: int,
)
    requires
        0 <= n <= s.len(),
        s.len() <= usize::MAX,
    ensures
        ({
            let v = going(s, cutoff, max, over, n);
            &&& forall|k: int| 0 <= k < v.len() ==> #[trigger] v[k] < n
            &&& forall|j: int, k: int|
                #![trigger v[j], v[k]]
                0 <= j < k < v.len() ==> v[j] < v[k]
        }),
    decreases n,
{
    if n > 0 {
        going_in_range(s, cutoff, max, over, n - 1);
        let front = going(s, cutoff, max, over, n - 1);
        let all = going(s, cutoff, max, over, n);
        assert(forall|k: int| 0 <= k < front.len() ==> all[k] == #[trigger] front[k]);
        assert forall|k: int| 0 <= k < all.len() implies #[trigger] all[k] < n by {
            if k < front.len() {
                assert(all[k] == front[k]);
            }
        }
        assert forall|j: int, k: int|
            #![trigger all[j], all[k]]
            0 <= j < k < all.len() implies all[j] < all[k] by {
            assert(all[j] == front[j]);
            if k < front.len() {
                assert(all[k] == front[k]);
            }
        }
    }
}

/// The places that are selected come in order, each once, and are places of
/// candidates.
pub proof fn selected_places_rise(
    s: Seq<Cand>,
    z: Seq<u64>,
    cutoff: Option<DateTime>,
    max: Option<u64>,
)
    requires
        s.len() <= usize::MAX,
        selection(s, z, cutoff, max) is Ok,
    ensures
        ({
            let v = selection(s, z, cutoff, max)->Ok_0;
            &&& forall|k: int| 0 <= k < v.len() ==> #[trigger] v[k] < s.len()
            &&& forall|j: int, k: int|
                #![trigger v[j], v[k]]
                0 <= j < k < v.len() ==> v[j] < v[k]
        }),
{
    let over = match max {
        Some(m) => over_at(s, z, m as int),
        None => None,
    };
    going_in_range(s, cutoff, max, over, s.len() as int);
}

/// The items of one invocation are selected together or not at all, whatever the
/// filters.
pub proof fn a_batch_stays_or_goes(
    s: Seq<Cand>,
    z: Seq<u64>,
    cutoff: Option<DateTime>,
    max: Option<u64>,
    i: usize,
    j: usize,
)
    requires
        s.len() <= usize::MAX,
        i < j < s.len(),
        s[i as int].batchable,
        s[j as int].batchable,
        s[i as int].date == s[j as int].date,
        selection(s, z, cutoff, max) is Ok,
    ensures
        selection(s, z, cutoff, max)->Ok_0.contains(i) <==> selection(
            s,
            z,
            cutoff,
            max,
        )->Ok_0.contains(j),
{
    selected_are_those_that_go(s, z, cutoff, max, i);
    selected_are_those_that_go(s, z, cutoff, max, j);
    a_date_makes_a_batch(s, i as int, j as int);
}

// ---------------------------------------------------------------------------
// The plan of a run
// ---------------------------------------------------------------------------

/// A candidate's key as contents.
pub open spec fn key_view(k: (usize, Vec<u8>)) -> (usize, Seq<u8>) {
    (k.0, k.1@)
}

/// A candidate as contents.
pub open spec fn cand_view(c: Cand) -> (DateTime, (usize, Seq<u8>), bool) {
    (c.date, key_view(c.key), c.batchable)
}

/// What a list of candidates holds.
pub open spec fn cand_views(v: Seq<Cand>) -> Seq<(DateTime, (usize, Seq<u8>), bool)> {
    Seq::new(v.len(), |i: int| cand_view(v[i]))
}

/// The candidates that contents give: the items, then the orphans.
pub open spec fn candidates_of(items: Seq<ItemView>, orphans: Seq<OrphanView>) -> Seq<
    (DateTime, (usize, Seq<u8>), bool),
> {
    Seq::new(
        items.len() + orphans.len(),
        |i: int|
            if i < items.len() {
                (items[i].date, (items[i].trash as usize, items[i].name), true)
            } else {
                let o = orphans[i - items.len()];
                (o.date, (o.trash as usize, o.name), false)
            },
    )
}

/// The candidates for deletion among what the trash directories hold.
pub fn candidates(c: &Contents) -> (out: Vec<Cand>)
    ensures
        cand_views(out@) == candidates_of(c@.items, c@.orphans),
{
    let ghost want = candidates_of(c@.items, c@.orphans);
    let mut out: Vec<Cand> = Vec::new();
    let mut i: usize = 0;
    while i < c.items.len()
        invariant
            i <= c.items.len(),
            want == candidates_of(c@.items, c@.orphans),
            cand_views(out@) =~= want.take(i as int),
        decreases c.items.len() - i,
    {
        let it = &c.items[i];
        assert(c@.items[i as int] == it@);
        let ghost was = cand_views(out@);
        let one = Cand {
            date: it.date,
            key: (it.trash, copy(it.name.as_slice())),
            batchable: true,
        };
        out.push(one);
        assert(cand_views(out@) =~= was.push(cand_view(one)));
        assert(want[i as int] == cand_view(one));
        i = i + 1;
    }
    let n: usize = c.items.len();
    let mut j: usize = 0;
    while j < c.orphans.len()
        invariant
            j <= c.orphans.len(),
            n == c.items.len(),
            want == candidates_of(c@.items, c@.orphans),
            cand_views(out@) =~= want.take(n + j),
        decreases c.orphans.len() - j,
    {
        let o = &c.orphans[j];
        assert(c@.orphans[j as int] == o@);
        let ghost was = cand_views(out@);
        let one = Cand {
            date: o.date,
            key: (o.trash, copy(o.name.as_slice())),
            batchable: false,
        };
        out.push(one);
        assert(cand_views(out@) =~= was.push(cand_view(one)));
        assert(want[n + j] == cand_view(one));
        j = j + 1;
    }
    assert(want.take(want.len() as int) =~= want);
    out
}

impl Key for (usize, Vec<u8>) {
    type V = (usize, Seq<u8>);

    open spec fn key(self) -> (usize, Seq<u8>) {
        key_view(self)
    }

    open spec fn spot(v: (usize, Seq<u8>)) -> u64 {
        byte_hash(v.1) as u64
    }

    fn hash_of(&self) -> (h: u64) {
        self.1.hash_of()
    }

    fn is(&self, other: &Self) -> (r: bool) {
        self.0 == other.0 && same(self.1.as_slice(), other.1.as_slice())
    }
}

/// The `i`th entry of the items and orphans taken together.
pub open spec fn nth_of(items: int, i: int) -> Which {
    if i < items {
        Which::Item(i as usize)
    } else {
        Which::Orphan((i - items) as usize)
    }
}

/// The entries by key, of the first `n` items and orphans.
pub open spec fn by_key(
    items: Seq<ItemView>,
    orphans: Seq<OrphanView>,
    n: int,
) -> Map<(usize, Seq<u8>), Which>
    decreases n,
{
    if n <= 0 {
        Map::empty()
    } else {
        by_key(items, orphans, n - 1).insert(
            candidates_of(items, orphans)[n - 1].1,
            nth_of(items.len() as int, n - 1),
        )
    }
}

/// All entries by key.
pub open spec fn all_by_key(items: Seq<ItemView>, orphans: Seq<OrphanView>) -> Map<
    (usize, Seq<u8>),
    Which,
> {
    by_key(items, orphans, (items.len() + orphans.len()) as int)
}

fn look_up_table(c: &Contents) -> (t: Table<(usize, Vec<u8>), Which>)
    ensures
        t.wf(),
        t.map() == all_by_key(c@.items, c@.orphans),
{
    let mut t: Table<(usize, Vec<u8>), Which> = Table::new();
    let mut i: usize = 0;
    let n: usize = c.items.len();
    let ghost items = c@.items;
    let ghost orphans = c@.orphans;
    while i < n
        invariant
            i <= n,
            n == c.items.len(),
            items == c@.items,
            orphans == c@.orphans,
            t.wf(),
            t.map() == by_key(items, orphans, i as int),
        decreases n - i,
    {
        let it = &c.items[i];
        assert(items[i as int] == it@);
        t.insert((it.trash, copy(it.name.as_slice())), Which::Item(i));
        i = i + 1;
    }
    let mut j: usize = 0;
    while j < c.orphans.len()
        invariant
            j <= c.orphans.len(),
            n == items.len(),
            items == c@.items,
            orphans == c@.orphans,
            t.wf(),
            t.map() == by_key(items, orphans, n + j),
        decreases c.orphans.len() - j,
    {
        let o = &c.orphans[j];
        assert(orphans[j as int] == o@);
        t.insert((o.trash, copy(o.name.as_slice())), Which::Orphan(j));
        j = j + 1;
    }
    t
}

/// The selected entries, each with the place of its trash directory.
pub open spec fn picked(
    s: Seq<Cand>,
    m: Map<(usize, Seq<u8>), Which>,
    idx: Seq<usize>,
) -> Seq<(usize, Dated)> {
    Seq::new(
        idx.len(),
        |k: int|
            {
                let c = s[idx[k] as int];
                (c.key.0, Dated { date: c.date, which: m[key_view(c.key)] })
            },
    )
}

/// The entries of one trash directory.
pub open spec fn group(p: Seq<(usize, Dated)>, t: int) -> Seq<Dated>
    decreases p.len(),
{
    if p.len() == 0 {
        Seq::empty()
    } else {
        let front = group(p.drop_last(), t);
        if p.last().0 == t {
            front.push(p.last().1)
        } else {
            front
        }
    }
}

/// How many of the entries are items.
pub open spec fn item_count(p: Seq<(usize, Dated)>) -> int
    decreases p.len(),
{
    if p.len() == 0 {
        0
    } else {
        item_count(p.drop_last()) + (if p.last().1.which is Item {
            1int
        } else {
            0
        })
    }
}

/// In how many of the first `n` trash directories something is selected.
pub open spec fn dirs_of(p: Seq<(usize, Dated)>, n: int) -> int
    decreases n,
{
    if n <= 0 {
        0
    } else {
        dirs_of(p, n - 1) + (if group(p, n - 1).len() > 0 {
            1int
        } else {
            0
        })
    }
}

/// The sum of the sizes of the selected entries.
pub open spec fn size_of_all(z: Seq<u64>, idx: Seq<usize>) -> int
    decreases idx.len(),
{
    if idx.len() == 0 {
        0
    } else {
        sat(size_of_all(z, idx.drop_last()) + z[idx.last() as int])
    }
}

/// The size to show before deletion: that of all that is selected, where a
/// limit had it all measured.
pub open spec fn shown_size(
    s: Seq<Cand>,
    z: Seq<u64>,
    idx: Seq<usize>,
    max: Option<u64>,
) -> Option<u64> {
    if max is Some && (forall|k: int|
        0 <= k < idx.len() ==> measured(s, z, max, #[trigger] idx[k] as int)) {
        Some(size_of_all(z, idx) as u64)
    } else {
        None
    }
}

/// What a run is about to delete: for each trash directory its entries, the
/// oldest first; how many items and orphans in how many directories; and their
/// size, where it is known without measuring more.
pub struct Plan {
    pub groups: Vec<Vec<Dated>>,
    pub items: u64,
    pub orphans: u64,
    pub dirs: u64,
    pub size: Option<u64>,
}

/// A plan is the one that these selected entries and sizes make.
pub open spec fn plan_is(
    plan: Plan,
    p: Seq<(usize, Dated)>,
    trashes: int,
    size: Option<u64>,
) -> bool {
    &&& plan.groups@.len() == trashes
    &&& forall|t: int| 0 <= t < trashes ==> (#[trigger] plan.groups@[t])@ == sorted(group(p, t))
    &&& plan.items == item_count(p)
    &&& plan.orphans == p.len() - item_count(p)
    &&& plan.dirs == dirs_of(p, trashes)
    &&& plan.size == size
}

proof fn item_count_bounds(p: Seq<(usize, Dated)>)
    ensures
        0 <= item_count(p) <= p.len(),
    decreases p.len(),
{
    if p.len() > 0 {
        item_count_bounds(p.drop_last());
    }
}

fn known_size(sizes: &Vec<Option<u64>>, idx: &Vec<usize>) -> (r: Option<u64>)
    requires
        forall|k: int| 0 <= k < idx@.len() ==> #[trigger] idx@[k] < sizes@.len(),
    ensures
        r == (if forall|k: int|
            0 <= k < idx@.len() ==> sizes@[#[trigger] idx@[k] as int] is Some {
            Some(size_of_all(filled(sizes@), idx@) as u64)
        } else {
            None
        }),
{
    let mut total: u64 = 0;
    let mut i: usize = 0;
    assert(idx@.take(0) =~= Seq::empty());
    while i < idx.len()
        invariant
            i <= idx.len(),
            total == size_of_all(filled(sizes@), idx@.take(i as int)),
            forall|k: int| 0 <= k < idx@.len() ==> #[trigger] idx@[k] < sizes@.len(),
            forall|k: int| 0 <= k < i ==> sizes@[#[trigger] idx@[k] as int] is Some,
        decreases idx.len() - i,
    {
        match sizes[idx[i]] {
            None => {
                assert(sizes@[idx@[i as int] as int] is None);
                return None;
            },
            Some(one) => {
                assert(idx@.take(i + 1).drop_last() =~= idx@.take(i as int));
                total = plus(total, one);
            },
        }
        i = i + 1;
    }
    assert(idx@.take(idx@.len() as int) =~= idx@);
    Some(total)
}

proof fn size_of_all_local(a: Seq<u64>, b: Seq<u64>, idx: Seq<usize>)
    requires
        forall|k: int| 0 <= k < idx.len() ==> a[#[trigger] idx[k] as int] == b[idx[k] as int],
    ensures
        size_of_all(a, idx) == size_of_all(b, idx),
    decreases idx.len(),
{
    if idx.len() > 0 {
        let front = idx.drop_last();
        assert forall|k: int| 0 <= k < front.len() implies a[#[trigger] front[k] as int]
            == b[front[k] as int] by {
            assert(front[k] == idx[k]);
        }
        size_of_all_local(a, b, front);
        assert(idx[idx.len() - 1] == idx.last());
    }
}

/// Sorts the selected entries by trash directory and counts them.
fn group_picked(
    s: &Vec<Cand>,
    t: &Table<(usize, Vec<u8>), Which>,
    idx: &Vec<usize>,
    trashes: usize,
    size: Option<u64>,
) -> (plan: Plan)
    requires
        t.wf(),
        forall|k: int| 0 <= k < idx@.len() ==> #[trigger] idx@[k] < s@.len(),
        forall|i: int|
            #![trigger s@[i]]
            0 <= i < s@.len() ==> s@[i].key.0 < trashes && t.map().contains_key(
                key_view(s@[i].key),
            ),
    ensures
        plan_is(plan, picked(s@, t.map(), idx@), trashes as int, size),
{
    let ghost m = t.map();
    let ghost all = picked(s@, m, idx@);
    let mut groups: Vec<Vec<Dated>> = Vec::new();
    let mut k: usize = 0;
    while k < trashes
        invariant
            k <= trashes,
            groups@.len() == k,
            forall|g: int| 0 <= g < k ==> (#[trigger] groups@[g])@ == group(all.take(0), g),
        decreases trashes - k,
    {
        groups.push(Vec::new());
        assert(groups@[k as int]@ =~= group(all.take(0), k as int));
        k = k + 1;
    }
    let mut items: u64 = 0;
    let mut i: usize = 0;
    assert(all.take(0) =~= Seq::empty());
    while i < idx.len()
        invariant
            i <= idx.len(),
            t.wf(),
            m == t.map(),
            all == picked(s@, m, idx@),
            groups@.len() == trashes,
            forall|k: int| 0 <= k < idx@.len() ==> #[trigger] idx@[k] < s@.len(),
            forall|i: int|
                #![trigger s@[i]]
                0 <= i < s@.len() ==> s@[i].key.0 < trashes && m.contains_key(key_view(s@[i].key)),
            forall|g: int|
                0 <= g < trashes ==> (#[trigger] groups@[g])@ == group(all.take(i as int), g),
            items == item_count(all.take(i as int)),
            items <= i,
        decreases idx.len() - i,
    {
        let c = &s[idx[i]];
        assert(s@[idx@[i as int] as int] == c);
        let which = match t.get(&c.key) {
            Some(w) => w,
            None => Which::Item(0),
        };
        let d = Dated { date: c.date, which };
        let dir: usize = c.key.0;
        assert(all[i as int] == (dir, d));
        let ghost next = all.take(i + 1);
        assert(next.drop_last() =~= all.take(i as int));
        assert(next.last() == all[i as int]);
        if let Which::Item(_) = which {
            items = items + 1;
        }
        let ghost was = groups@;
        groups[dir].push(d);
        proof {
            assert forall|g: int| 0 <= g < trashes implies (#[trigger] groups@[g])@ == group(
                next,
                g,
            ) by {
                if g == dir {
                    assert(groups@[g]@ =~= was[g]@.push(d));
                } else {
                    assert(groups@[g] == was[g]);
                }
            }
        }
        i = i + 1;
    }
    assert(all.take(all.len() as int) =~= all);
    proof {
        item_count_bounds(all);
    }
    let mut dirs: u64 = 0;
    let mut g: usize = 0;
    while g < trashes
        invariant
            g <= trashes,
            groups@.len() == trashes,
            forall|h: int| 0 <= h < g ==> (#[trigger] groups@[h])@ == sorted(group(all, h)),
            forall|h: int| g <= h < trashes ==> (#[trigger] groups@[h])@ == group(all, h),
            dirs == dirs_of(all, g as int),
            dirs <= g,
        decreases trashes - g,
    {
        if groups[g].len() > 0 {
            dirs = dirs + 1;
        }
        let ghost was = groups@;
        proof {
            dated_is_ordered();
        }
        sort(&mut groups[g]);
        proof {
            assert forall|h: int| 0 <= h < g + 1 implies (#[trigger] groups@[h])@ == sorted(
                group(all, h),
            ) by {
                if h < g {
                    assert(groups@[h] == was[h]);
                }
            }
            assert forall|h: int| g + 1 <= h < trashes implies (#[trigger] groups@[h])@ == group(
                all,
                h,
            ) by {
                assert(groups@[h] == was[h]);
            }
        }
        g = g + 1;
    }
    Plan { groups, items, orphans: idx.len() as u64 - items, dirs, size }
}

/// That nothing was deleted because the newest batch alone is too large.
pub open spec fn too_large_text(have: u64, max: u64) -> Seq<char> {
    "the newest batch alone is "@ + human_text(have as nat) + " but --max-size is "@ + human_text(
        max as nat,
    ) + "; nothing was deleted"@
}

/// A refused run names the size of the newest batch and the limit, each as it is shown.
pub proof fn a_refused_run_names_both_sizes(have: u64, max: u64)
    ensures
        too_large_text(have, max) == "the newest batch alone is "@ + human_text(have as nat)
            + " but --max-size is "@ + human_text(max as nat) + "; nothing was deleted"@,
{
}

fn too_large(have: u64, max: u64) -> (s: String)
    ensures
        s@ == too_large_text(have, max),
{
    let mut s = String::from_str("the newest batch alone is ");
    s.append(human(have).as_str());
    s.append(" but --max-size is ");
    s.append(human(max).as_str());
    s.append("; nothing was deleted");
    s
}

proof fn by_key_holds(items: Seq<ItemView>, orphans: Seq<OrphanView>, n: int, i: int)
    requires
        0 <= i < n <= items.len() + orphans.len(),
    ensures
        by_key(items, orphans, n).contains_key(candidates_of(items, orphans)[i].1),
    decreases n,
{
    if i < n - 1 {
        by_key_holds(items, orphans, n - 1, i);
    }
}

/// No two of the entries have one key: each name stands once in a trash
/// directory.
pub open spec fn keys_differ(items: Seq<ItemView>, orphans: Seq<OrphanView>) -> bool {
    &&& forall|i: int, j: int|
        #![trigger items[i], items[j]]
        0 <= i < j < items.len() ==> items[i].trash != items[j].trash || items[i].name
            != items[j].name
    &&& forall|i: int, j: int|
        #![trigger orphans[i], orphans[j]]
        0 <= i < j < orphans.len() ==> orphans[i].trash != orphans[j].trash || orphans[i].name
            != orphans[j].name
    &&& forall|i: int, j: int|
        #![trigger items[i], orphans[j]]
        0 <= i < items.len() && 0 <= j < orphans.len() ==> items[i].trash != orphans[j].trash
            || items[i].name != orphans[j].name
}

proof fn cand_keys_differ(
    items: Seq<ItemView>,
    orphans: Seq<OrphanView>,
    trashes: int,
    i: int,
    j: int,
)
    requires
        keys_differ(items, orphans),
        contents_fit(items, orphans, trashes),
        trashes <= usize::MAX,
        0 <= i < j < items.len() + orphans.len(),
    ensures
        candidates_of(items, orphans)[i].1 != candidates_of(items, orphans)[j].1,
{
    if j < items.len() {
        assert(items[i].trash != items[j].trash || items[i].name != items[j].name);
    } else if i < items.len() {
        let o = orphans[j - items.len()];
        assert(items[i].trash != o.trash || items[i].name != o.name);
    } else {
        let a = orphans[i - items.len()];
        let b = orphans[j - items.len()];
        assert(a.trash != b.trash || a.name != b.name);
    }
}

proof fn by_key_is(items: Seq<ItemView>, orphans: Seq<OrphanView>, trashes: int, n: int, i: int)
    requires
        keys_differ(items, orphans),
        contents_fit(items, orphans, trashes),
        trashes <= usize::MAX,
        0 <= i < n <= items.len() + orphans.len(),
    ensures
        by_key(items, orphans, n)[candidates_of(items, orphans)[i].1] == nth_of(
            items.len() as int,
            i,
        ),
    decreases n,
{
    if i < n - 1 {
        by_key_is(items, orphans, trashes, n - 1, i);
        cand_keys_differ(items, orphans, trashes, i, n - 1);
    }
}

/// Every entry has its place among the candidates in order.
proof fn entry_has_its_place(
    all: Seq<Cand>,
    items: Seq<ItemView>,
    orphans: Seq<OrphanView>,
    i: int,
) -> (k: int)
    requires
        cand_views(all) == candidates_of(items, orphans),
        0 <= i < items.len() + orphans.len(),
    ensures
        0 <= k < sorted(all).len(),
        cand_view(sorted(all)[k]) == candidates_of(items, orphans)[i],
{
    broadcast use vstd::seq_lib::group_to_multiset_ensures;

    newest_come_first(all);
    let s = sorted(all);
    assert(cand_views(all).len() == all.len());
    assert(cand_views(all)[i] == cand_view(all[i]));
    assert(all.contains(all[i]));
    assert(all.to_multiset().count(all[i]) > 0);
    assert(s.to_multiset().count(all[i]) > 0);
    assert(s.contains(all[i]));
    choose|k: int| 0 <= k < s.len() && s[k] == all[i]
}

/// Every candidate in order is one of the entries.
proof fn place_has_its_entry(
    all: Seq<Cand>,
    items: Seq<ItemView>,
    orphans: Seq<OrphanView>,
    k: int,
) -> (i: int)
    requires
        cand_views(all) == candidates_of(items, orphans),
        0 <= k < sorted(all).len(),
    ensures
        0 <= i < items.len() + orphans.len(),
        cand_view(sorted(all)[k]) == candidates_of(items, orphans)[i],
{
    broadcast use vstd::seq_lib::group_to_multiset_ensures;

    newest_come_first(all);
    let s = sorted(all);
    assert(s.contains(s[k]));
    assert(s.to_multiset().count(s[k]) > 0);
    assert(all.to_multiset().count(s[k]) > 0);
    assert(all.contains(s[k]));
    let i = choose|i: int| 0 <= i < all.len() && all[i] == s[k];
    assert(cand_views(all).len() == all.len());
    assert(cand_views(all)[i] == cand_view(all[i]));
    i
}

proof fn group_holds(p: Seq<(usize, Dated)>, t: int, d: Dated)
    requires
        0 <= t <= usize::MAX,
    ensures
        group(p, t).contains(d) <==> p.contains((t as usize, d)),
    decreases p.len(),
{
    if p.len() > 0 {
        let before = p.drop_last();
        let front = group(before, t);
        let all = group(p, t);
        group_holds(before, t, d);
        assert(p[p.len() - 1] == p.last());
        if before.contains((t as usize, d)) {
            let k = choose|k: int| 0 <= k < before.len() && before[k] == (t as usize, d);
            assert(p[k] == (t as usize, d));
        }
        if p.contains((t as usize, d)) && p.last() != (t as usize, d) {
            let k = choose|k: int| 0 <= k < p.len() && p[k] == (t as usize, d);
            assert(before[k] == (t as usize, d));
        }
        if p.last().0 == t {
            assert(all[front.len() as int] == p.last().1);
            if front.contains(d) {
                let k = choose|k: int| 0 <= k < front.len() && front[k] == d;
                assert(all[k] == d);
            }
            if all.contains(d) && d != p.last().1 {
                let k = choose|k: int| 0 <= k < all.len() && all[k] == d;
                assert(front[k] == d);
            }
        }
    }
}

proof fn sorted_group_holds(p: Seq<(usize, Dated)>, t: int)
    requires
        0 <= t <= usize::MAX,
    ensures
        forall|d: Dated| #[trigger]
            sorted(group(p, t)).contains(d) <==> p.contains((t as usize, d)),
        forall|i: int, j: int|
            #![trigger sorted(group(p, t))[i], sorted(group(p, t))[j]]
            0 <= i < j < sorted(group(p, t)).len() ==> !sorted(group(p, t))[j].date.earlier(
                sorted(group(p, t))[i].date,
            ),
{
    broadcast use vstd::seq_lib::group_to_multiset_ensures;

    let g = group(p, t);
    let q = sorted(g);
    dated_is_ordered();
    sorted_is_in_order(g);
    assert forall|d: Dated| #[trigger] q.contains(d) <==> p.contains((t as usize, d)) by {
        group_holds(p, t, d);
        assert(g.contains(d) <==> g.to_multiset().count(d) > 0);
        assert(q.contains(d) <==> q.to_multiset().count(d) > 0);
    }
    assert forall|i: int, j: int|
        #![trigger q[i], q[j]]
        0 <= i < j < q.len() implies !q[j].date.earlier(q[i].date) by {
        assert(!q[i].after(q[j]));
    }
}

/// The entry with number `i` is picked just where its place is.
proof fn entry_is_picked(
    all: Seq<Cand>,
    items: Seq<ItemView>,
    orphans: Seq<OrphanView>,
    trashes: int,
    idx: Seq<usize>,
    i: int,
)
    requires
        cand_views(all) == candidates_of(items, orphans),
        contents_fit(items, orphans, trashes),
        trashes <= usize::MAX,
        keys_differ(items, orphans),
        items.len() + orphans.len() <= usize::MAX,
        0 <= i < items.len() + orphans.len(),
        forall|k: int| 0 <= k < idx.len() ==> #[trigger] idx[k] < sorted(all).len(),
    ensures
        ({
            let c = candidates_of(items, orphans)[i];
            let p = picked(sorted(all), all_by_key(items, orphans), idx);
            p.contains((c.1.0, Dated { date: c.0, which: nth_of(items.len() as int, i) }))
                <==> exists|k: int|
                0 <= k < idx.len() && cand_view(sorted(all)[#[trigger] idx[k] as int]) == c
        }),
{
    let s = sorted(all);
    let m = all_by_key(items, orphans);
    let p = picked(s, m, idx);
    let n = (items.len() + orphans.len()) as int;
    let cs = candidates_of(items, orphans);
    let c = cs[i];
    let want = (c.1.0, Dated { date: c.0, which: nth_of(items.len() as int, i) });
    by_key_is(items, orphans, trashes, n, i);
    if p.contains(want) {
        let k = choose|k: int| 0 <= k < p.len() && p[k] == want;
        assert(idx[k] < s.len());
        let j = place_has_its_entry(all, items, orphans, idx[k] as int);
        by_key_is(items, orphans, trashes, n, j);
        assert(m[cs[j].1] == nth_of(items.len() as int, j));
        assert(j == i);
        assert(cand_view(s[idx[k] as int]) == c);
    }
    if exists|k: int| 0 <= k < idx.len() && cand_view(s[#[trigger] idx[k] as int]) == c {
        let k = choose|k: int| 0 <= k < idx.len() && cand_view(s[#[trigger] idx[k] as int]) == c;
        assert(p[k] == want);
    }
}

/// Every trash directory that the contents speak of is on the list.
pub open spec fn contents_fit(items: Seq<ItemView>, orphans: Seq<OrphanView>, trashes: int) -> bool {
    &&& forall|i: int|
        0 <= i < items.len() ==> 0 <= (#[trigger] items[i]).trash < trashes
    &&& forall|i: int| 0 <= i < orphans.len() ==> 0 <= (#[trigger] orphans[i]).trash < trashes
}

/// A plan for these candidates, in order and with these sizes, or why there is
/// none.
pub open spec fn run_is(
    r: Result<Plan, String>,
    items: Seq<ItemView>,
    orphans: Seq<OrphanView>,
    trashes: int,
    s: Seq<Cand>,
    z: Seq<u64>,
    cutoff: Option<DateTime>,
    max: Option<u64>,
) -> bool {
    match selection(s, z, cutoff, max) {
        Err(e) => r matches Err(text) && text@ == too_large_text(e.0, e.1),
        Ok(idx) => r matches Ok(plan) && plan_is(
            plan,
            picked(s, all_by_key(items, orphans), idx),
            trashes,
            shown_size(s, z, idx, max),
        ),
    }
}

/// Plans a run of `rip empty` over what the trash directories hold: selects what
/// goes, sorts it by trash directory, and counts it. `size` is asked no further
/// than the limit needs.
pub fn run<F: Fn(&Cand) -> u64>(
    c: &Contents,
    trashes: usize,
    cutoff: Option<DateTime>,
    max: Option<u64>,
    size: F,
) -> (r: Result<Plan, String>)
    requires
        contents_fit(c@.items, c@.orphans, trashes as int),
        forall|all: Seq<Cand>| #[trigger]
            cand_views(all) == candidates_of(c@.items, c@.orphans) ==> answers(
                size,
                sorted(all),
                max,
            ),
    ensures
        exists|all: Seq<Cand>, z: Seq<u64>|
            #![trigger cand_views(all), selection(sorted(all), z, cutoff, max)]
            cand_views(all) == candidates_of(c@.items, c@.orphans) && sizes_of(
                size,
                sorted(all),
                z,
                max,
            ) && run_is(
                r,
                c@.items,
                c@.orphans,
                trashes as int,
                sorted(all),
                z,
                cutoff,
                max,
            ),
{
    let mut cands = candidates(c);
    let ghost all = cands@;
    let table = look_up_table(c);
    let ghost items = c@.items;
    let ghost orphans = c@.orphans;
    let (sel, sizes) = select_sized(&mut cands, cutoff, max, &size);
    let n: usize = cands.len();
    let ghost s = cands@;
    let ghost z = choose|z: Seq<u64>|
        #![trigger selection(s, z, cutoff, max)]
        sizes_of(size, s, z, max) && as_measured(sizes@, s, z, max) && selection_view(sel)
            == selection(s, z, cutoff, max);
    assert(s == sorted(all));
    match sel {
        Err((have, m)) => {
            let r = Err(too_large(have, m));
            assert(run_is(r, items, orphans, trashes as int, sorted(all), z, cutoff, max));
            assert(cand_views(all) == candidates_of(items, orphans));
            r
        },
        Ok(idx) => {
            proof {
                assert(selection(s, z, cutoff, max) == Ok::<Seq<usize>, (u64, u64)>(idx@));
                selected_places_rise(s, z, cutoff, max);
                let places = selection(s, z, cutoff, max)->Ok_0;
                assert forall|k: int| 0 <= k < idx@.len() implies #[trigger] idx@[k] < n by {
                    assert(places[k] < s.len());
                }
            }
            let known = match max {
                Some(_) => known_size(&sizes, &idx),
                None => None,
            };
            proof {
                assert(known == shown_size(s, z, idx@, max)) by {
                    if max is Some {
                        assert forall|k: int| 0 <= k < idx@.len() implies (
                        sizes@[#[trigger] idx@[k] as int] is Some <==> measured(
                            s,
                            z,
                            max,
                            idx@[k] as int,
                        )) by {
                            assert(0 <= idx@[k] < s.len());
                        }
                        if known is Some {
                            size_of_all_local(filled(sizes@), z, idx@);
                        }
                    }
                }
                sorted_cands_known(all, items, orphans, trashes as int);
            }
            let plan = group_picked(&cands, &table, &idx, trashes, known);
            let r = Ok(plan);
            assert(run_is(r, items, orphans, trashes as int, sorted(all), z, cutoff, max));
            assert(cand_views(all) == candidates_of(items, orphans));
            r
        },
    }
}

/// Every candidate, sorted or not, is an entry of the contents.
proof fn sorted_cands_known(
    all: Seq<Cand>,
    items: Seq<ItemView>,
    orphans: Seq<OrphanView>,
    trashes: int,
)
    requires
        cand_views(all) == candidates_of(items, orphans),
        contents_fit(items, orphans, trashes),
        trashes <= usize::MAX,
    ensures
        forall|i: int|
            #![trigger sorted(all)[i]]
            0 <= i < sorted(all).len() ==> sorted(all)[i].key.0 < trashes && all_by_key(
                items,
                orphans,
            ).contains_key(key_view(sorted(all)[i].key)),
{
    broadcast use vstd::seq_lib::group_to_multiset_ensures;

    newest_come_first(all);
    let s = sorted(all);
    assert forall|i: int| #![trigger s[i]] 0 <= i < s.len() implies s[i].key.0 < trashes
        && all_by_key(items, orphans).contains_key(key_view(s[i].key)) by {
        assert(s.to_multiset().count(s[i]) > 0) by {
            assert(s.contains(s[i]));
        }
        assert(all.contains(s[i]));
        let j = choose|j: int| 0 <= j < all.len() && all[j] == s[i];
        assert(cand_views(all).len() == all.len());
        assert(cand_views(all)[j] == cand_view(s[i]));
        let total = (items.len() + orphans.len()) as int;
        by_key_holds(items, orphans, total, j);
        assert(candidates_of(items, orphans)[j].1 == key_view(s[i].key));
        if j < items.len() {
            assert(0 <= items[j].trash < trashes);
        } else {
            assert(0 <= orphans[j - items.len()].trash < trashes);
        }
    }
}

/// A plan holds just what the filters let go, each entry with its own date in the
/// group of its own trash directory, the oldest first. Without a filter that is
/// everything; with a cutoff, what is dated before it, and nothing dated at it or
/// after; with a limit, what is of the batch that goes over it or of one behind.
pub proof fn a_plan_holds_just_what_goes(
    plan: Plan,
    items: Seq<ItemView>,
    orphans: Seq<OrphanView>,
    trashes: int,
    all: Seq<Cand>,
    z: Seq<u64>,
    cutoff: Option<DateTime>,
    max: Option<u64>,
)
    requires
        cand_views(all) == candidates_of(items, orphans),
        contents_fit(items, orphans, trashes),
        trashes <= usize::MAX,
        keys_differ(items, orphans),
        items.len() + orphans.len() <= usize::MAX,
        run_is(Ok(plan), items, orphans, trashes, sorted(all), z, cutoff, max),
    ensures
        plan.groups@.len() == trashes,
        forall|i: int|
            0 <= i < items.len() ==> (plan.groups@[(#[trigger] items[i]).trash]@.contains(
                Dated { date: items[i].date, which: Which::Item(i as usize) },
            ) <==> ((cutoff is None && max is None) || (cutoff matches Some(c)
                && items[i].date.earlier(c)) || (max matches Some(m) && (over_at(
                sorted(all),
                z,
                m as int,
            ) matches Some(o) && (exists|k: int|
                0 <= k < all.len() && (#[trigger] sorted(all)[k]).key.0 == items[i].trash && sorted(
                    all,
                )[k].key.1@ == items[i].name && head_of(sorted(all), k) >= o))))),
        forall|i: int|
            0 <= i < orphans.len() ==> (plan.groups@[(#[trigger] orphans[i]).trash]@.contains(
                Dated { date: orphans[i].date, which: Which::Orphan(i as usize) },
            ) <==> ((cutoff is None && max is None) || (cutoff matches Some(c)
                && orphans[i].date.earlier(c)) || (max matches Some(m) && (over_at(
                sorted(all),
                z,
                m as int,
            ) matches Some(o) && (exists|k: int|
                0 <= k < all.len() && (#[trigger] sorted(all)[k]).key.0 == orphans[i].trash
                    && sorted(all)[k].key.1@ == orphans[i].name && head_of(sorted(all), k)
                    >= o))))),
        forall|t: int, j: int|
            #![trigger plan.groups@[t]@[j]]
            0 <= t < trashes && 0 <= j < plan.groups@[t]@.len() ==> match plan.groups@[t]@[j].which {
                Which::Item(i) => i < items.len() && items[i as int].trash == t
                    && items[i as int].date == plan.groups@[t]@[j].date,
                Which::Orphan(i) => i < orphans.len() && orphans[i as int].trash == t
                    && orphans[i as int].date == plan.groups@[t]@[j].date,
            },
        forall|t: int, i: int, j: int|
            #![trigger plan.groups@[t]@[i], plan.groups@[t]@[j]]
            0 <= t < trashes && 0 <= i < j < plan.groups@[t]@.len()
                ==> !plan.groups@[t]@[j].date.earlier(plan.groups@[t]@[i].date),
{
    let s = sorted(all);
    newest_come_first(all);
    assert(cand_views(all).len() == all.len());
    let idx = selection(s, z, cutoff, max)->Ok_0;
    let p = picked(s, all_by_key(items, orphans), idx);
    selected_places_rise(s, z, cutoff, max);
    assert forall|i: int| 0 <= i < items.len() implies (
    plan.groups@[(#[trigger] items[i]).trash]@.contains(
        Dated { date: items[i].date, which: Which::Item(i as usize) },
    ) <==> ((cutoff is None && max is None) || (cutoff matches Some(c) && items[i].date.earlier(c))
        || (max matches Some(m) && (over_at(s, z, m as int) matches Some(o) && (exists|k: int|
        0 <= k < all.len() && (#[trigger] s[k]).key.0 == items[i].trash && s[k].key.1@
            == items[i].name && head_of(s, k) >= o))))) by {
        entry_goes(all, items, orphans, trashes, z, cutoff, max, i);
        sorted_group_holds(p, items[i].trash);
        assert(plan.groups@[items[i].trash]@ == sorted(group(p, items[i].trash)));
    }
    assert forall|i: int| 0 <= i < orphans.len() implies (
    plan.groups@[(#[trigger] orphans[i]).trash]@.contains(
        Dated { date: orphans[i].date, which: Which::Orphan(i as usize) },
    ) <==> ((cutoff is None && max is None) || (cutoff matches Some(c) && orphans[i].date.earlier(c))
        || (max matches Some(m) && (over_at(s, z, m as int) matches Some(o) && (exists|k: int|
        0 <= k < all.len() && (#[trigger] s[k]).key.0 == orphans[i].trash && s[k].key.1@
            == orphans[i].name && head_of(s, k) >= o))))) by {
        entry_goes(all, items, orphans, trashes, z, cutoff, max, items.len() + i);
        sorted_group_holds(p, orphans[i].trash);
        assert(plan.groups@[orphans[i].trash]@ == sorted(group(p, orphans[i].trash)));
    }
    assert forall|t: int, j: int|
        #![trigger plan.groups@[t]@[j]]
        0 <= t < trashes && 0 <= j < plan.groups@[t]@.len() implies match plan.groups@[t]@[j].which {
        Which::Item(i) => i < items.len() && items[i as int].trash == t && items[i as int].date
            == plan.groups@[t]@[j].date,
        Which::Orphan(i) => i < orphans.len() && orphans[i as int].trash == t
            && orphans[i as int].date == plan.groups@[t]@[j].date,
    } by {
        sorted_group_holds(p, t);
        let g = plan.groups@[t]@;
        assert(g == sorted(group(p, t)));
        assert(g.contains(g[j]));
        let k = choose|k: int| 0 <= k < p.len() && p[k] == (t as usize, g[j]);
        assert(idx[k] < s.len());
        let i = place_has_its_entry(all, items, orphans, idx[k] as int);
        by_key_is(items, orphans, trashes, (items.len() + orphans.len()) as int, i);
        if i < items.len() {
            assert(items[i].trash < trashes);
        } else {
            assert(orphans[i - items.len()].trash < trashes);
        }
    }
    assert forall|t: int, i: int, j: int|
        #![trigger plan.groups@[t]@[i], plan.groups@[t]@[j]]
        0 <= t < trashes && 0 <= i < j < plan.groups@[t]@.len() implies !plan.groups@[t]@[j].date.earlier(
        plan.groups@[t]@[i].date,
    ) by {
        sorted_group_holds(p, t);
        assert(plan.groups@[t]@ == sorted(group(p, t)));
    }
}

proof fn entry_goes(
    all: Seq<Cand>,
    items: Seq<ItemView>,
    orphans: Seq<OrphanView>,
    trashes: int,
    z: Seq<u64>,
    cutoff: Option<DateTime>,
    max: Option<u64>,
    i: int,
)
    requires
        cand_views(all) == candidates_of(items, orphans),
        contents_fit(items, orphans, trashes),
        trashes <= usize::MAX,
        keys_differ(items, orphans),
        items.len() + orphans.len() <= usize::MAX,
        0 <= i < items.len() + orphans.len(),
        selection(sorted(all), z, cutoff, max) is Ok,
    ensures
        ({
            let s = sorted(all);
            let c = candidates_of(items, orphans)[i];
            let idx = selection(s, z, cutoff, max)->Ok_0;
            let p = picked(s, all_by_key(items, orphans), idx);
            p.contains((c.1.0, Dated { date: c.0, which: nth_of(items.len() as int, i) })) <==> ((
            cutoff is None && max is None) || (cutoff matches Some(x) && c.0.earlier(x)) || (
            max matches Some(m) && (over_at(s, z, m as int) matches Some(o) && (exists|k: int|
                0 <= k < all.len() && (#[trigger] s[k]).key.0 == c.1.0 && s[k].key.1@ == c.1.1
                    && head_of(s, k) >= o))))
        }),
{
    let s = sorted(all);
    let cs = candidates_of(items, orphans);
    let c = cs[i];
    let idx = selection(s, z, cutoff, max)->Ok_0;
    newest_come_first(all);
    assert(cand_views(all).len() == all.len());
    selected_places_rise(s, z, cutoff, max);
    entry_is_picked(all, items, orphans, trashes, idx, i);
    let at = entry_has_its_place(all, items, orphans, i);
    selected_are_those_that_go(s, z, cutoff, max, at as usize);
    // The place of the entry is the only one with its key.
    assert forall|k: int| 0 <= k < s.len() && (#[trigger] s[k]).key.0 == c.1.0 && s[k].key.1@
        == c.1.1 implies k == at by {
        one_place_for_a_key(all, items, orphans, trashes, k, at);
    }
    if exists|k: int| 0 <= k < idx.len() && cand_view(s[#[trigger] idx[k] as int]) == c {
        let k = choose|k: int| 0 <= k < idx.len() && cand_view(s[#[trigger] idx[k] as int]) == c;
        assert(s[idx[k] as int].key.0 == c.1.0);
        assert(idx[k] == at);
        assert(idx.contains(at as usize));
    }
    if idx.contains(at as usize) {
        let k = choose|k: int| 0 <= k < idx.len() && idx[k] == at as usize;
        assert(cand_view(s[idx[k] as int]) == c);
    }
    assert(s[at].key.0 == c.1.0);
}

proof fn one_place_for_a_key(
    all: Seq<Cand>,
    items: Seq<ItemView>,
    orphans: Seq<OrphanView>,
    trashes: int,
    j: int,
    k: int,
)
    requires
        cand_views(all) == candidates_of(items, orphans),
        contents_fit(items, orphans, trashes),
        trashes <= usize::MAX,
        keys_differ(items, orphans),
        0 <= j < sorted(all).len(),
        0 <= k < sorted(all).len(),
        key_view(sorted(all)[j].key) == key_view(sorted(all)[k].key),
    ensures
        j == k,
{
    broadcast use vstd::seq_lib::group_to_multiset_ensures;

    let s = sorted(all);
    newest_come_first(all);
    assert(cand_views(all).len() == all.len());
    assert forall|a: int, b: int| 0 <= a < b < all.len() implies all[a] != all[b] by {
        cand_keys_differ(items, orphans, trashes, a, b);
        assert(cand_views(all)[a] == cand_view(all[a]));
        assert(cand_views(all)[b] == cand_view(all[b]));
    }
    assert(all.no_duplicates());
    all.lemma_multiset_has_no_duplicates();
    assert forall|d: Cand| #[trigger] s.to_multiset().contains(d) implies s.to_multiset().count(d)
        == 1 by {
        assert(all.to_multiset().contains(d));
    }
    s.lemma_multiset_has_no_duplicates_conv();
    let a = place_in(all, j);
    let b = place_in(all, k);
    assert(cand_views(all)[a] == cand_view(all[a]));
    assert(cand_views(all)[b] == cand_view(all[b]));
    if a < b {
        cand_keys_differ(items, orphans, trashes, a, b);
    } else if b < a {
        cand_keys_differ(items, orphans, trashes, b, a);
    }
}

proof fn place_in(all: Seq<Cand>, k: int) -> (i: int)
    requires
        0 <= k < sorted(all).len(),
    ensures
        0 <= i < all.len(),
        all[i] == sorted(all)[k],
{
    broadcast use vstd::seq_lib::group_to_multiset_ensures;

    newest_come_first(all);
    let s = sorted(all);
    assert(s.contains(s[k]));
    assert(s.to_multiset().count(s[k]) > 0);
    assert(all.to_multiset().count(s[k]) > 0);
    assert(all.contains(s[k]));
    choose|i: int| 0 <= i < all.len() && all[i] == s[k]
}

/// There is no plan just where the newest batch alone is over the limit, and it
/// is said how large it is.
pub proof fn a_run_is_refused_for_its_newest_batch(
    r: Result<Plan, String>,
    items: Seq<ItemView>,
    orphans: Seq<OrphanView>,
    trashes: int,
    s: Seq<Cand>,
    z: Seq<u64>,
    cutoff: Option<DateTime>,
    max: Option<u64>,
)
    requires
        run_is(r, items, orphans, trashes, s, z, cutoff, max),
    ensures
        r is Err <==> max is Some && s.len() > 0 && sat(batch_size(s, z, 0, s.len() as int))
            > max->0,
        r matches Err(text) ==> text@ == "the newest batch alone is "@ + human_text(
            sat(batch_size(s, z, 0, s.len() as int)) as nat,
        ) + " but --max-size is "@ + human_text(max->0 as nat) + "; nothing was deleted"@,
{
    only_the_newest_batch_is_too_large(s, z, cutoff, max);
}

/// The size of what is selected is the sum of its sizes, up to the largest
/// number.
pub proof fn a_size_is_the_sum(z: Seq<u64>, idx: Seq<usize>)
    ensures
        size_of_all(z, idx) == sat(idx.fold_left(0int, |a: int, i: usize| a + z[i as int])),
    decreases idx.len(),
{
    if idx.len() > 0 {
        a_size_is_the_sum(z, idx.drop_last());
        sum_is_not_negative(z, idx.drop_last());
    }
}

proof fn sum_is_not_negative(z: Seq<u64>, idx: Seq<usize>)
    ensures
        0 <= idx.fold_left(0int, |a: int, i: usize| a + z[i as int]),
    decreases idx.len(),
{
    if idx.len() > 0 {
        sum_is_not_negative(z, idx.drop_last());
    }
}

/// A size is shown just where a limit had all that goes measured, and then it is
/// the size of just that.
pub proof fn a_shown_size_is_known(
    s: Seq<Cand>,
    z: Seq<u64>,
    idx: Seq<usize>,
    max: Option<u64>,
)
    ensures
        max is None ==> shown_size(s, z, idx, max) is None,
        max matches Some(m) ==> (shown_size(s, z, idx, max) is Some <==> (over_at(s, z, m as int)
            is None || forall|k: int|
            0 <= k < idx.len() ==> head_of(s, #[trigger] idx[k] as int) <= over_at(
                s,
                z,
                m as int,
            )->0)),
        shown_size(s, z, idx, max) matches Some(n) ==> n == sat(
            idx.fold_left(0int, |a: int, i: usize| a + z[i as int]),
        ),
{
    a_size_is_the_sum(z, idx);
    sum_is_not_negative(z, idx);
    if max is Some && over_at(s, z, max->0 as int) is Some {
        let o = over_at(s, z, max->0 as int)->0;
        if forall|k: int| 0 <= k < idx.len() ==> measured(s, z, max, #[trigger] idx[k] as int) {
            assert forall|k: int| 0 <= k < idx.len() implies head_of(
                s,
                #[trigger] idx[k] as int,
            ) <= o by {
                assert(measured(s, z, max, idx[k] as int));
            }
        }
    }
}

/// A plan counts what it holds: the items and the orphans among its entries, and
/// the trash directories that hold any. Without a filter it counts everything.
pub proof fn a_plan_counts_what_it_holds(
    plan: Plan,
    p: Seq<(usize, Dated)>,
    trashes: nat,
    size: Option<u64>,
)
    requires
        plan_is(plan, p, trashes as int, size),
    ensures
        plan.items == p.filter(|x: (usize, Dated)| x.1.which is Item).len(),
        plan.items + plan.orphans == p.len(),
        plan.dirs == Seq::new(trashes, |t: int| t).filter(
            |t: int| plan.groups@[t]@.len() > 0,
        ).len(),
        plan.size == size,
{
    items_are_counted(p);
    assert forall|t: int| 0 <= t < trashes implies ((#[trigger] plan.groups@[t])@.len() > 0
        <==> group(p, t).len() > 0) by {
        dated_is_ordered();
        sorted_is_in_order(group(p, t));
    }
    dirs_are_counted(plan, p, trashes, trashes);
}

proof fn items_are_counted(p: Seq<(usize, Dated)>)
    ensures
        item_count(p) == p.filter(|x: (usize, Dated)| x.1.which is Item).len(),
    decreases p.len(),
{
    reveal(Seq::filter);
    if p.len() > 0 {
        items_are_counted(p.drop_last());
    }
}

proof fn dirs_are_counted(plan: Plan, p: Seq<(usize, Dated)>, trashes: nat, n: nat)
    requires
        n <= trashes,
        forall|t: int|
            0 <= t < trashes ==> ((#[trigger] plan.groups@[t])@.len() > 0 <==> group(p, t).len()
                > 0),
    ensures
        dirs_of(p, n as int) == Seq::new(n, |t: int| t).filter(
            |t: int| plan.groups@[t]@.len() > 0,
        ).len(),
    decreases n,
{
    reveal(Seq::filter);
    let all = Seq::new(n, |t: int| t);
    if n > 0 {
        let m = (n - 1) as nat;
        dirs_are_counted(plan, p, trashes, m);
        assert(all.drop_last() =~= Seq::new(m, |t: int| t));
        assert(plan.groups@[m as int]@.len() > 0 <==> group(p, m as int).len() > 0);
    }
}

/// Whether there is a question before a plan is carried out: where something is
/// selected and `-y` was not given.
pub fn asks(plan: &Plan, yes: bool) -> (r: bool)
    ensures
        r == (!yes && (plan.items > 0 || plan.orphans > 0)),
{
    !yes && (plan.items > 0 || plan.orphans > 0)
}

/// The question before a plan is carried out.
pub fn question(plan: &Plan) -> (s: String)
    ensures
        s@ == "permanently delete "@ + decimal(plan.items as nat) + " items and "@ + decimal(
            plan.orphans as nat,
        ) + " orphans from "@ + decimal(plan.dirs as nat) + " trash directories"@ + (
        match plan.size {
            Some(n) => " ("@ + human_text(n as nat) + ")"@,
            None => Seq::empty(),
        }) + "?"@,
{
    let mut s = String::from_str("permanently delete ");
    s.append(number(plan.items).as_str());
    s.append(" items and ");
    s.append(number(plan.orphans).as_str());
    s.append(" orphans from ");
    s.append(number(plan.dirs).as_str());
    s.append(" trash directories");
    if let Some(n) = plan.size {
        s.append(" (");
        s.append(human(n).as_str());
        s.append(")");
    }
    s.append("?");
    s
}

/// Why nothing is deleted where the question had no answer; `io` is what the
/// system said.
pub fn refusal(a: Answer, io: &str) -> (s: String)
    ensures
        s@ == (if a is NoTerminal {
            "refusing to delete without confirmation (use -y)"@
        } else {
            io@
        }),
{
    match a {
        Answer::NoTerminal => String::from_str("refusing to delete without confirmation (use -y)"),
        _ => io.to_owned(),
    }
}

/// Those of the first `n` dangling infos that are in one trash directory.
pub open spec fn dangling_of(d: Seq<DanglingView>, t: int, n: int) -> Seq<usize>
    decreases n,
{
    if n <= 0 {
        Seq::empty()
    } else {
        let front = dangling_of(d, t, n - 1);
        if d[n - 1].trash == t {
            front.push((n - 1) as usize)
        } else {
            front
        }
    }
}

/// Every dangling info of a trash directory is found for it, and no other.
pub proof fn every_dangling_info_is_found(d: Seq<DanglingView>, t: int, n: int, i: usize)
    requires
        0 <= n <= d.len(),
        d.len() <= usize::MAX,
    ensures
        dangling_of(d, t, n).contains(i) <==> i < n && d[i as int].trash == t,
    decreases n,
{
    if n > 0 {
        every_dangling_info_is_found(d, t, n - 1, i);
        let front = dangling_of(d, t, n - 1);
        let all = dangling_of(d, t, n);
        if front.contains(i) {
            let k = choose|k: int| 0 <= k < front.len() && front[k] == i;
            assert(all[k] == i);
        }
        if d[n - 1].trash == t {
            assert(all[front.len() as int] == (n - 1) as usize);
            if all.contains(i) && !front.contains(i) {
                let k = choose|k: int| 0 <= k < all.len() && all[k] == i;
                assert(k == front.len() || front[k] == i);
            }
        }
    }
}

/// The dangling infos of one trash directory. Every run removes them.
pub fn dangling_in(c: &Contents, t: usize) -> (v: Vec<usize>)
    ensures
        v@ == dangling_of(c@.dangling, t as int, c@.dangling.len() as int),
{
    let mut v: Vec<usize> = Vec::new();
    let mut i: usize = 0;
    while i < c.dangling.len()
        invariant
            i <= c.dangling.len(),
            v@ == dangling_of(c@.dangling, t as int, i as int),
        decreases c.dangling.len() - i,
    {
        assert(c@.dangling[i as int] == c.dangling@[i as int]@);
        if c.dangling[i].trash == t {
            v.push(i);
        }
        i = i + 1;
    }
    v
}

/// What is said of an entry that could not be deleted.
pub fn kept_notice(path: &[u8], why: &str) -> (s: String)
    ensures
        s@ == "could not delete "@ + escaped(path@) + ": "@ + why@,
{
    let mut s = String::from_str("could not delete ");
    s.append(escape(path).as_str());
    s.append(": ");
    s.append(why);
    s
}

/// Whether all went well: true just where no trash directory kept anything that
/// was to go.
pub fn all_went(reports: &Vec<Report>) -> (ok: bool)
    ensures
        ok <==> forall|i: int| 0 <= i < reports@.len() ==> (#[trigger] reports@[i]).kept@.len() == 0,
{
    let mut i: usize = 0;
    while i < reports.len()
        invariant
            i <= reports.len(),
            forall|k: int| 0 <= k < i ==> (#[trigger] reports@[k]).kept@.len() == 0,
        decreases reports.len() - i,
    {
        if reports[i].kept.len() > 0 {
            assert(reports@[i as int].kept@.len() != 0);
            return false;
        }
        i = i + 1;
    }
    true
}

/// What is said in the end.
pub fn deleted_notice(n: u64) -> (s: String)
    ensures
        s@ == "deleted "@ + decimal(n as nat) + " items"@,
{
    let mut s = String::from_str("deleted ");
    s.append(number(n).as_str());
    s.append(" items");
    s
}

} // verus!
