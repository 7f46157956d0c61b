//! Stable sorting.

use vstd::prelude::*;

verus! {

/// `s` with `x` put behind everything that it does not come before, counted from the end.
pub open spec fn inserted<T>(s: Seq<T>, x: T, less: spec_fn(T, T) -> bool) -> Seq<T>
    decreases s.len(),
{
    if s.len() == 0 || !less(x, s.last()) {
        s.push(x)
    } else {
        inserted(s.drop_last(), x, less).push(s.last())
    }
}

/// `s` sorted by `less`; what is equal keeps its order.
pub open spec fn sorted<T>(s: Seq<T>, less: spec_fn(T, T) -> bool) -> Seq<T>
    decreases s.len(),
{
    if s.len() == 0 {
        s
    } else {
        inserted(sorted(s.drop_last(), less), s.last(), less)
    }
}

/// An order in which "not before" is transitive, so that it ranks things, possibly with ties.
pub open spec fn ranks<T>(less: spec_fn(T, T) -> bool) -> bool {
    &&& forall|a: T, b: T| #[trigger] less(a, b) ==> !less(b, a)
    &&& forall|a: T, b: T, c: T| #![trigger less(a, b), less(b, c)] !less(a, b) && !less(b, c) ==> !less(a, c)
}

/// Nothing comes before what stands in front of it.
pub open spec fn in_order<T>(s: Seq<T>, less: spec_fn(T, T) -> bool) -> bool {
    forall|i: int, j: int| 0 <= i < j < s.len() ==> !less(#[trigger] s[j], #[trigger] s[i])
}

proof fn lemma_inserted<T>(s: Seq<T>, x: T, less: spec_fn(T, T) -> bool)
    ensures
        inserted(s, x, less).to_multiset() == s.to_multiset().insert(x),
        inserted(s, x, less).len() == s.len() + 1,
    decreases s.len(),
{
    broadcast use vstd::seq_lib::group_to_multiset_ensures;
    if s.len() > 0 && less(x, s.last()) {
        let t = s.drop_last();
        lemma_inserted(t, x, less);
        assert(s =~= t.push(s.last()));
        assert(inserted(s, x, less).to_multiset() =~= t.to_multiset().insert(x).insert(s.last()));
        assert(s.to_multiset() =~= t.to_multiset().insert(s.last()));
        assert(t.to_multiset().insert(x).insert(s.last()) =~= t.to_multiset().insert(
            s.last(),
        ).insert(x));
    }
}

/// Sorting keeps what there is.
pub proof fn sorting_keeps_items<T>(s: Seq<T>, less: spec_fn(T, T) -> bool)
    ensures
        sorted(s, less).to_multiset() == s.to_multiset(),
        sorted(s, less).len() == s.len(),
    decreases s.len(),
{
    broadcast use vstd::seq_lib::group_to_multiset_ensures;
    if s.len() > 0 {
        sorting_keeps_items(s.drop_last(), less);
        lemma_inserted(sorted(s.drop_last(), less), s.last(), less);
        assert(s =~= s.drop_last().push(s.last()));
    }
}

/// Something stands in a sorted sequence exactly where it stood in the unsorted one.
pub proof fn sorting_keeps_membership<T>(s: Seq<T>, less: spec_fn(T, T) -> bool, x: T)
    ensures
        sorted(s, less).contains(x) == s.contains(x),
{
    broadcast use vstd::seq_lib::group_to_multiset_ensures;
    sorting_keeps_items(s, less);
    assert(s.to_multiset().count(x) == sorted(s, less).to_multiset().count(x));
}

proof fn lemma_inserted_member<T>(s: Seq<T>, x: T, less: spec_fn(T, T) -> bool, i: int)
    requires
        0 <= i < inserted(s, x, less).len(),
    ensures
        inserted(s, x, less)[i] == x || s.contains(inserted(s, x, less)[i]),
{
    broadcast use vstd::seq_lib::group_to_multiset_ensures;
    lemma_inserted(s, x, less);
    let r = inserted(s, x, less);
    assert(r.to_multiset().count(r[i]) > 0) by {
        assert(r.contains(r[i]));
    }
    if r[i] != x {
        assert(s.to_multiset().count(r[i]) > 0);
    }
}

proof fn lemma_inserted_in_order<T>(s: Seq<T>, x: T, less: spec_fn(T, T) -> bool)
    requires
        ranks(less),
        in_order(s, less),
    ensures
        in_order(inserted(s, x, less), less),
    decreases s.len(),
{
    let r = inserted(s, x, less);
    if s.len() == 0 {
    } else if !less(x, s.last()) {
        assert forall|i: int, j: int| 0 <= i < j < r.len() implies !less(
            #[trigger] r[j],
            #[trigger] r[i],
        ) by {
            if j == s.len() && i < s.len() - 1 {
                assert(!less(s[s.len() - 1], s[i]));
            }
        }
    } else {
        let t = s.drop_last();
        let q = inserted(t, x, less);
        assert(in_order(t, less)) by {
            assert forall|i: int, j: int| 0 <= i < j < t.len() implies !less(
                #[trigger] t[j],
                #[trigger] t[i],
            ) by {
                assert(!less(s[j], s[i]));
            }
        }
        lemma_inserted_in_order(t, x, less);
        assert forall|i: int, j: int| 0 <= i < j < r.len() implies !less(
            #[trigger] r[j],
            #[trigger] r[i],
        ) by {
            if j == r.len() - 1 {
                lemma_inserted_member(t, x, less, i);
                if q[i] != x {
                    let k = choose|k: int| 0 <= k < t.len() && t[k] == q[i];
                    assert(!less(s[s.len() - 1], s[k]));
                } else {
                    assert(less(x, s.last()));
                }
            } else {
                assert(!less(q[j], q[i]));
            }
        }
    }
}

/// Sorting by an order that ranks puts everything in order.
pub proof fn sorting_orders<T>(s: Seq<T>, less: spec_fn(T, T) -> bool)
    requires
        ranks(less),
    ensures
        in_order(sorted(s, less), less),
    decreases s.len(),
{
    if s.len() > 0 {
        sorting_orders(s.drop_last(), less);
        lemma_inserted_in_order(sorted(s.drop_last(), less), s.last(), less);
    }
}

proof fn lemma_inserted_through<T, U>(
    s: Seq<T>,
    x: T,
    f: spec_fn(T) -> U,
    less: spec_fn(T, T) -> bool,
    image: spec_fn(U, U) -> bool,
)
    requires
        forall|a: T, b: T| #[trigger] less(a, b) == image(f(a), f(b)),
    ensures
        inserted(s, x, less).map_values(f) == inserted(s.map_values(f), f(x), image),
    decreases s.len(),
{
    if s.len() == 0 {
        assert(s.push(x).map_values(f) =~= s.map_values(f).push(f(x)));
    } else {
        assert(s.map_values(f).last() == f(s.last()));
        assert(less(x, s.last()) == image(f(x), f(s.last())));
        if less(x, s.last()) {
            lemma_inserted_through(s.drop_last(), x, f, less, image);
            assert(s.map_values(f).drop_last() =~= s.drop_last().map_values(f));
            assert(inserted(s.drop_last(), x, less).push(s.last()).map_values(f) =~= inserted(
                s.drop_last(),
                x,
                less,
            ).map_values(f).push(f(s.last())));
        } else {
            assert(s.push(x).map_values(f) =~= s.map_values(f).push(f(x)));
        }
    }
}

/// Sorting and then looking through `f` is looking through `f` and then sorting, where the
/// order only depends on what `f` shows.
pub proof fn sorting_through<T, U>(
    s: Seq<T>,
    f: spec_fn(T) -> U,
    less: spec_fn(T, T) -> bool,
    image: spec_fn(U, U) -> bool,
)
    requires
        forall|a: T, b: T| #[trigger] less(a, b) == image(f(a), f(b)),
    ensures
        sorted(s, less).map_values(f) == sorted(s.map_values(f), image),
    decreases s.len(),
{
    if s.len() > 0 {
        sorting_through(s.drop_last(), f, less, image);
        lemma_inserted_through(sorted(s.drop_last(), less), s.last(), f, less, image);
        assert(s.map_values(f).drop_last() =~= s.drop_last().map_values(f));
    } else {
        assert(s.map_values(f) =~= sorted(s.map_values(f), image));
    }
}

/// Whether neither of two things comes before the other.
pub open spec fn ties<T>(less: spec_fn(T, T) -> bool, c: T) -> spec_fn(T) -> bool {
    |x: T| !less(x, c) && !less(c, x)
}

proof fn lemma_inserted_ties<T>(s: Seq<T>, x: T, less: spec_fn(T, T) -> bool, c: T)
    requires
        ranks(less),
    ensures
        inserted(s, x, less).filter(ties(less, c)) == s.push(x).filter(ties(less, c)),
    decreases s.len(),
{
    reveal(Seq::filter);
    let f = ties(less, c);
    if s.len() > 0 && less(x, s.last()) {
        let t = s.drop_last();
        let y = s.last();
        lemma_inserted_ties(t, x, less, c);
        let q = inserted(t, x, less);
        assert(q.push(y).drop_last() =~= q);
        assert(t.push(x).drop_last() =~= t);
        assert(s.push(x).drop_last() =~= s);
        if f(y) && f(x) {
            assert(!less(x, c) && !less(c, y));
            assert(!less(x, y));
            assert(false);
        }
        let kept = t.filter(f);
        assert(s.filter(f) == if f(y) { kept.push(y) } else { kept });
        assert(t.push(x).filter(f) == if f(x) { kept.push(x) } else { kept });
        assert(s.push(x).filter(f) == if f(x) { s.filter(f).push(x) } else { s.filter(f) });
        assert(q.push(y).filter(f) == if f(y) { q.filter(f).push(y) } else { q.filter(f) });
    }
}

/// Sorting leaves what ties in the order in which it stood.
pub proof fn sorting_leaves_ties_alone<T>(s: Seq<T>, less: spec_fn(T, T) -> bool, c: T)
    requires
        ranks(less),
    ensures
        sorted(s, less).filter(ties(less, c)) == s.filter(ties(less, c)),
    decreases s.len(),
{
    reveal(Seq::filter);
    if s.len() > 0 {
        let t = s.drop_last();
        sorting_leaves_ties_alone(t, less, c);
        lemma_inserted_ties(sorted(t, less), s.last(), less, c);
        assert(sorted(t, less).push(s.last()).drop_last() =~= sorted(t, less));
    }
}

/// Sorts `v`; `before` decides `less`.
pub(crate) fn stable_sort<T, F: Fn(&T, &T) -> bool>(
    v: Vec<T>,
    before: F,
    Ghost(less): Ghost<spec_fn(T, T) -> bool>,
) -> (r: Vec<T>)
    requires
        forall|a: &T, b: &T| #[trigger] call_requires(before, (a, b)),
        forall|a: &T, b: &T, c: bool| #[trigger]
            call_ensures(before, (a, b), c) ==> c == less(*a, *b),
    ensures
        r@ == sorted(v@, less),
{
    let mut rest = v;
    let mut out: Vec<T> = Vec::new();
    let ghost all = v@;
    let ghost mut k: int = 0;
    assert(all.take(0) =~= Seq::<T>::empty());
    assert(all.skip(0) =~= all);
    while rest.len() > 0
        invariant
            forall|a: &T, b: &T| #[trigger] call_requires(before, (a, b)),
            forall|a: &T, b: &T, c: bool| #[trigger]
                call_ensures(before, (a, b), c) ==> c == less(*a, *b),
            0 <= k <= all.len(),
            rest@ == all.skip(k),
            out@ == sorted(all.take(k), less),
        decreases rest@.len(),
    {
        let x = rest.remove(0);
        let ghost sorted_part = out@;
        let mut j: usize = out.len();
        assert(sorted_part.take(j as int) =~= sorted_part);
        assert(inserted(sorted_part, x, less) =~= inserted(sorted_part.take(j as int), x, less)
            + sorted_part.skip(j as int));
        while j > 0 && before(&x, &out[j - 1])
            invariant
                forall|a: &T, b: &T| #[trigger] call_requires(before, (a, b)),
                forall|a: &T, b: &T, c: bool| #[trigger]
                    call_ensures(before, (a, b), c) ==> c == less(*a, *b),
                out@ == sorted_part,
                j <= sorted_part.len(),
                inserted(sorted_part, x, less) == inserted(sorted_part.take(j as int), x, less)
                    + sorted_part.skip(j as int),
            decreases j,
        {
            let ghost head = sorted_part.take(j as int);
            assert(head.drop_last() =~= sorted_part.take(j - 1));
            assert(inserted(head, x, less) == inserted(head.drop_last(), x, less).push(head.last()));
            assert(inserted(head, x, less) + sorted_part.skip(j as int) =~= inserted(
                sorted_part.take(j - 1),
                x,
                less,
            ) + sorted_part.skip(j - 1));
            j -= 1;
        }
        proof {
            let head = sorted_part.take(j as int);
            assert(inserted(head, x, less) == head.push(x));
            assert(head.push(x) + sorted_part.skip(j as int) =~= sorted_part.insert(j as int, x));
            assert(all.take(k + 1).drop_last() =~= all.take(k));
            assert(all.take(k + 1).last() == x);
            assert(all.skip(k).remove(0) =~= all.skip(k + 1));
            k = k + 1;
        }
        out.insert(j, x);
    }
    assert(all.take(k) =~= all);
    out
}

} // verus!
