//! A stable sort.
use vstd::prelude::*;

verus! {

/// What a sort asks of its elements: whether one comes strictly after another.
pub trait Ordered: Sized {
    spec fn after(self, other: Self) -> bool;

    fn is_after(&self, other: &Self) -> (r: bool)
        ensures
            r == self.after(*other),
    ;
}

/// `x` put into `s` behind everything that does not come after it.
pub open spec fn inserted<T: Ordered>(s: Seq<T>, x: T) -> Seq<T>
    decreases s.len(),
{
    if s.len() > 0 && s.last().after(x) {
        inserted(s.drop_last(), x).push(s.last())
    } else {
        s.push(x)
    }
}

/// `s` in order; of two elements with nothing between them the first stays
/// first.
pub open spec fn sorted<T: Ordered>(s: Seq<T>) -> Seq<T>
    decreases s.len(),
{
    if s.len() == 0 {
        s
    } else {
        inserted(sorted(s.drop_last()), s.last())
    }
}

/// The relation is an order: what comes after something that comes after is
/// itself after, and nothing comes after what comes after it.
pub open spec fn is_order<T: Ordered>() -> bool {
    &&& forall|a: T, b: T| #[trigger] a.after(b) ==> !b.after(a)
    &&& forall|a: T, b: T, c: T|
        #![trigger a.after(b), b.after(c)]
        !a.after(b) && !b.after(c) ==> !a.after(c)
}

/// Nothing in `s` comes after what stands behind it.
pub open spec fn in_order<T: Ordered>(s: Seq<T>) -> bool {
    forall|i: int, j: int|
        #![trigger s[i], s[j]]
        0 <= i < j < s.len() ==> !s[i].after(s[j])
}

proof fn inserted_is_ordered<T: Ordered>(s: Seq<T>, x: T)
    requires
        is_order::<T>(),
        in_order(s),
    ensures
        in_order(inserted(s, x)),
        inserted(s, x).len() == s.len() + 1,
        inserted(s, x).to_multiset() == s.to_multiset().insert(x),
        forall|i: int|
            0 <= i < inserted(s, x).len() ==> (#[trigger] inserted(s, x)[i] == x || s.contains(
                inserted(s, x)[i],
            )),
    decreases s.len(),
{
    broadcast use vstd::seq_lib::group_to_multiset_ensures;

    if s.len() > 0 && s.last().after(x) {
        let front = s.drop_last();
        let rest = inserted(front, x);
        assert forall|i: int, j: int|
            #![trigger front[i], front[j]]
            0 <= i < j < front.len() implies !front[i].after(front[j]) by {
            assert(front[i] == s[i] && front[j] == s[j]);
        }
        inserted_is_ordered(front, x);
        let all = rest.push(s.last());
        assert(front.push(s.last()) =~= s);
        assert(all.to_multiset() =~= s.to_multiset().insert(x));
        assert forall|i: int, j: int|
            #![trigger all[i], all[j]]
            0 <= i < j < all.len() implies !all[i].after(all[j]) by {
            if j < rest.len() {
                assert(all[i] == rest[i] && all[j] == rest[j]);
            } else {
                assert(all[i] == rest[i]);
                if rest[i] != x {
                    let k = choose|k: int| 0 <= k < front.len() && front[k] == rest[i];
                    assert(s[k] == rest[i]);
                    assert(!s[k].after(s[s.len() - 1]));
                } else {
                    assert(s.last().after(x));
                }
            }
        }
        assert forall|i: int| 0 <= i < all.len() implies (#[trigger] all[i] == x || s.contains(
            all[i],
        )) by {
            if i < rest.len() {
                assert(all[i] == rest[i]);
                if rest[i] != x {
                    let k = choose|k: int| 0 <= k < front.len() && front[k] == rest[i];
                    assert(s[k] == rest[i]);
                }
            } else {
                assert(s[s.len() - 1] == all[i]);
            }
        }
    } else {
        let all = s.push(x);
        assert forall|i: int, j: int|
            #![trigger all[i], all[j]]
            0 <= i < j < all.len() implies !all[i].after(all[j]) by {
            if j < s.len() {
                assert(all[i] == s[i] && all[j] == s[j]);
            } else {
                assert(all[i] == s[i] && all[j] == x);
                if i < s.len() - 1 {
                    assert(!s[i].after(s[s.len() - 1]));
                    assert(!s[s.len() - 1].after(x));
                }
            }
        }
        assert forall|i: int| 0 <= i < all.len() implies (#[trigger] all[i] == x || s.contains(
            all[i],
        )) by {
            if i < s.len() {
                assert(all[i] == s[i]);
            }
        }
    }
}

/// Sorting puts everything in order, and loses and adds nothing.
pub proof fn sorted_is_in_order<T: Ordered>(s: Seq<T>)
    requires
        is_order::<T>(),
    ensures
        in_order(sorted(s)),
        sorted(s).len() == s.len(),
        sorted(s).to_multiset() == s.to_multiset(),
    decreases s.len(),
{
    broadcast use vstd::seq_lib::group_to_multiset_ensures;

    if s.len() > 0 {
        sorted_is_in_order(s.drop_last());
        inserted_is_ordered(sorted(s.drop_last()), s.last());
        assert(s.drop_last().push(s.last()) =~= s);
    }
}

/// Two lists run together from the back: the greater last element goes last, the
/// second list's where neither comes after the other.
pub open spec fn merged<T: Ordered>(p: Seq<T>, q: Seq<T>) -> Seq<T>
    decreases p.len() + q.len(),
{
    if q.len() == 0 {
        p
    } else if p.len() > 0 && p.last().after(q.last()) {
        merged(p.drop_last(), q).push(p.last())
    } else {
        merged(p, q.drop_last()).push(q.last())
    }
}

proof fn merged_with_none<T: Ordered>(q: Seq<T>)
    ensures
        merged(Seq::<T>::empty(), q) == q,
    decreases q.len(),
{
    if q.len() > 0 {
        merged_with_none(q.drop_last());
        assert(q.drop_last().push(q.last()) =~= q);
    }
}

proof fn insert_then_merge<T: Ordered>(p: Seq<T>, q: Seq<T>, x: T)
    requires
        is_order::<T>(),
    ensures
        inserted(merged(p, q), x) == merged(p, inserted(q, x)),
    decreases p.len() + q.len(),
{
    let z = inserted(q, x);
    let m = merged(p, q);
    if p.len() == 0 {
        assert(p =~= Seq::empty());
        merged_with_none(q);
        merged_with_none(z);
    } else if q.len() == 0 {
        assert(z =~= q.push(x));
        assert(z.drop_last() =~= q);
        if p.last().after(x) {
            insert_then_merge(p.drop_last(), q, x);
        }
    } else {
        let pl = p.last();
        let ql = q.last();
        if ql.after(x) {
            assert(z.drop_last() =~= inserted(q.drop_last(), x));
        } else {
            assert(z.drop_last() =~= q);
        }
        if pl.after(ql) {
            assert(m.drop_last() =~= merged(p.drop_last(), q));
            if pl.after(x) {
                insert_then_merge(p.drop_last(), q, x);
            } else if ql.after(x) {
                assert(!x.after(ql));
                assert(!pl.after(x) && !x.after(ql));
                assert(false);
            }
        } else {
            assert(m.drop_last() =~= merged(p, q.drop_last()));
            if ql.after(x) {
                insert_then_merge(p, q.drop_last(), x);
            } else {
                assert(!pl.after(ql) && !ql.after(x));
            }
        }
    }
}

/// Two lists sorted and run together are the whole, sorted.
proof fn sort_by_halves<T: Ordered>(a: Seq<T>, b: Seq<T>)
    requires
        is_order::<T>(),
    ensures
        merged(sorted(a), sorted(b)) == sorted(a + b),
    decreases b.len(),
{
    if b.len() == 0 {
        assert(a + b =~= a);
    } else {
        let c = b.drop_last();
        sort_by_halves(a, c);
        assert((a + b).drop_last() =~= a + c);
        insert_then_merge(sorted(a), sorted(c), b.last());
    }
}

fn merge<T: Ordered>(left: Vec<T>, right: Vec<T>) -> (out: Vec<T>)
    ensures
        out@ == merged(left@, right@),
{
    let ghost whole = merged(left@, right@);
    let mut p = left;
    let mut q = right;
    let mut back: Vec<T> = Vec::new();
    assert(back@.reverse() =~= Seq::empty());
    assert(whole =~= merged(p@, q@) + back@.reverse());
    while q.len() > 0
        invariant
            whole =~= merged(p@, q@) + back@.reverse(),
        decreases p.len() + q.len(),
    {
        let ghost was = back@;
        let ghost m = merged(p@, q@);
        let from_left = p.len() > 0 && p[p.len() - 1].is_after(&q[q.len() - 1]);
        let next = if from_left {
            p.pop()
        } else {
            q.pop()
        };
        match next {
            Some(x) => {
                back.push(x);
                assert(m =~= merged(p@, q@).push(x));
                assert(back@.reverse() =~= seq![x] + was.reverse());
            },
            None => {},
        }
    }
    while back.len() > 0
        invariant
            whole =~= p@ + back@.reverse(),
        decreases back.len(),
    {
        let ghost was = back@;
        match back.pop() {
            Some(x) => {
                let ghost before = p@;
                p.push(x);
                assert(was.reverse() =~= seq![x] + back@.reverse());
                assert(before + was.reverse() =~= p@ + back@.reverse());
            },
            None => {},
        }
    }
    assert(back@.reverse() =~= Seq::empty());
    p
}

fn sort_all<T: Ordered>(v: Vec<T>) -> (out: Vec<T>)
    requires
        is_order::<T>(),
    ensures
        out@ == sorted(v@),
    decreases v@.len(),
{
    let n: usize = v.len();
    if n < 2 {
        proof {
            reveal_with_fuel(sorted, 2);
            if n == 1 {
                assert(v@.drop_last() =~= Seq::empty());
                assert(sorted(v@.drop_last()) =~= Seq::empty());
                assert(inserted(Seq::<T>::empty(), v@.last()) =~= v@);
            }
        }
        return v;
    }
    let ghost s = v@;
    let mut left = v;
    let right = left.split_off(n / 2);
    proof {
        sort_by_halves(left@, right@);
        assert(left@ + right@ =~= s);
    }
    merge(sort_all(left), sort_all(right))
}

/// Sorts a list, keeping the order of elements that have none between them.
pub fn sort<T: Ordered>(v: &mut Vec<T>)
    requires
        is_order::<T>(),
    ensures
        final(v)@ == sorted(old(v)@),
{
    let all = v.split_off(0);
    assert(all@ =~= old(v)@);
    let mut out = sort_all(all);
    v.append(&mut out);
}

} // verus!
