//! Sorting that keeps what is equal in the order in which it stood.

use vstd::prelude::*;

verus! {

/// The sequence with `item` before the first element that it goes before, or at its end.
pub open spec fn placed<M>(s: Seq<M>, item: M, before: spec_fn(M, M) -> bool) -> Seq<M>
    decreases s.len(),
{
    if s.len() == 0 {
        seq![item]
    } else if before(item, s.last()) {
        placed(s.drop_last(), item, before).push(s.last())
    } else {
        s.push(item)
    }
}

/// The elements in order; of two that neither goes before the other the earlier stays first.
pub open spec fn sorted_by<M>(s: Seq<M>, before: spec_fn(M, M) -> bool) -> Seq<M>
    decreases s.len(),
{
    if s.len() == 0 {
        s
    } else {
        placed(sorted_by(s.drop_last(), before), s.last(), before)
    }
}

/// A type whose values have an order.
pub trait Ranked: View {
    /// Whether a value goes before another.
    spec fn goes_before(a: Self::V, b: Self::V) -> bool;

    /// Whether this value goes before the other.
    fn is_ranked_before(&self, other: &Self) -> (r: bool)
        ensures
            r == Self::goes_before(self@, other@),
    ;
}

/// The order of a type.
pub open spec fn ranking<T: Ranked>() -> spec_fn(T::V, T::V) -> bool {
    |a: T::V, b: T::V| T::goes_before(a, b)
}

/// The mathematical forms of a sequence.
pub open spec fn views<T: View>(s: Seq<T>) -> Seq<T::V> {
    Seq::new(s.len(), |i: int| s[i]@)
}

/// Puts an item into its place among sorted ones.
fn put_in_place<T: Ranked>(list: &mut Vec<T>, item: T)
    ensures
        views(final(list)@) == placed(views(old(list)@), item@, ranking::<T>()),
{
    let ghost whole = placed(views(list@), item@, ranking::<T>());
    let mut at: usize = list.len();
    let ghost s = list@;
    assert(views(s).take(at as int) =~= views(s));
    assert(views(s).skip(at as int) =~= Seq::empty());
    assert(placed(views(s).take(at as int), item@, ranking::<T>()) + views(s).skip(at as int)
        =~= whole);
    loop
        invariant
            at <= s.len(),
            s == list@,
            placed(views(s).take(at as int), item@, ranking::<T>()) + views(s).skip(at as int)
                == whole,
        ensures
            at <= s.len(),
            s == list@,
            views(s).take(at as int).push(item@) + views(s).skip(at as int) == whole,
        decreases at,
    {
        let ghost front = views(s).take(at as int);
        if at == 0 {
            assert(front =~= Seq::empty());
            assert(front.push(item@) =~= seq![item@]);
            break;
        }
        assert(front.last() == list@[at - 1]@);
        if !item.is_ranked_before(&list[at - 1]) {
            break;
        }
        proof {
            assert(front.drop_last() =~= views(s).take(at - 1));
            let shorter = placed(views(s).take(at - 1), item@, ranking::<T>());
            assert(shorter.push(s[at - 1]@) + views(s).skip(at as int) =~= shorter + views(s).skip(
                at - 1,
            ));
        }
        at -= 1;
    }
    let ghost v = item@;
    list.insert(at, item);
    assert(views(list@) =~= views(s).take(at as int).push(v) + views(s).skip(at as int));
}

/// Sorts a list; what is equal stays in the order in which it stood.
pub fn sort<T: Ranked>(list: Vec<T>) -> (r: Vec<T>)
    ensures
        views(r@) == sorted_by(views(list@), ranking::<T>()),
{
    let ghost all = views(list@);
    let n: usize = list.len();
    let mut rest = list;
    let mut reversed: Vec<T> = Vec::new();
    let mut i: usize = 0;
    while i < n
        invariant
            i <= n == all.len(),
            views(rest@) == all.take(n - i),
            views(reversed@) == all.skip(n - i).reverse(),
        decreases n - i,
    {
        let ghost before = rest@;
        assert(views(before).len() == n - i);
        let item = rest.pop();
        match item {
            Some(x) => {
                assert(x@ == views(before)[n - i - 1]);
                let ghost done = reversed@;
                reversed.push(x);
                assert(views(rest@) =~= all.take(n - i - 1)) by {
                    assert forall|k: int| 0 <= k < n - i - 1 implies views(rest@)[k] == all[k] by {
                        assert(views(before)[k] == all[k]);
                    }
                }
                assert(views(reversed@) =~= views(done).push(all[n - i - 1]));
                assert(all.skip(n - i - 1).reverse() =~= all.skip(n - i).reverse().push(
                    all[n - i - 1],
                ));
            },
            None => {},
        }
        i += 1;
    }
    assert(all.skip(0) =~= all);
    assert(views(reversed@) == all.reverse());
    let mut r: Vec<T> = Vec::new();
    let mut k: usize = 0;
    assert(views(r@) =~= sorted_by(all.take(0), ranking::<T>()));
    assert(all.reverse().take(n as int) =~= all.reverse());
    while k < n
        invariant
            k <= n == all.len(),
            views(reversed@) == all.reverse().take(n - k),
            views(r@) == sorted_by(all.take(k as int), ranking::<T>()),
        decreases n - k,
    {
        let ghost before = reversed@;
        assert(views(before).len() == n - k);
        let item = reversed.pop();
        match item {
            Some(x) => {
                assert(x@ == views(before)[n - k - 1]);
                assert(x@ == all[k as int]);
                assert(views(reversed@) =~= all.reverse().take(n - k - 1)) by {
                    assert forall|j: int| 0 <= j < n - k - 1 implies views(reversed@)[j]
                        == all.reverse()[j] by {
                        assert(views(before)[j] == all.reverse().take(n - k)[j]);
                    }
                }
                assert(all.take(k + 1).drop_last() =~= all.take(k as int));
                put_in_place(&mut r, x);
            },
            None => {},
        }
        k += 1;
    }
    assert(all.take(n as int) =~= all);
    r
}

// ---------------------------------------------------------------------------
// What sorting keeps
// ---------------------------------------------------------------------------

/// The order is that of a line: what goes before does not go behind, and what does not go
/// behind stays so along the line.
pub open spec fn is_ranking<M>(before: spec_fn(M, M) -> bool) -> bool {
    &&& forall|a: M, b: M| #[trigger] before(a, b) ==> !before(b, a)
    &&& forall|a: M, b: M, c: M|
        !(#[trigger] before(b, a)) && !(#[trigger] before(c, b)) ==> !before(c, a)
}

/// No element goes before one that stands ahead of it.
pub open spec fn in_order<M>(s: Seq<M>, before: spec_fn(M, M) -> bool) -> bool {
    forall|i: int, j: int| 0 <= i < j < s.len() ==> !before(#[trigger] s[j], #[trigger] s[i])
}

proof fn lemma_placed<M>(s: Seq<M>, item: M, before: spec_fn(M, M) -> bool)
    ensures
        placed(s, item, before).to_multiset() == s.push(item).to_multiset(),
        placed(s, item, before).len() == s.len() + 1,
    decreases s.len(),
{
    broadcast use vstd::seq_lib::group_to_multiset_ensures;

    if s.len() > 0 && before(item, s.last()) {
        lemma_placed(s.drop_last(), item, before);
        assert(s.drop_last().push(s.last()) =~= s);
        assert(placed(s, item, before).to_multiset() =~= s.push(item).to_multiset());
    } else if s.len() == 0 {
        assert(seq![item] =~= s.push(item));
    }
}

/// Sorting keeps the elements.
pub proof fn lemma_sorted_keeps<M>(s: Seq<M>, before: spec_fn(M, M) -> bool)
    ensures
        sorted_by(s, before).to_multiset() == s.to_multiset(),
        sorted_by(s, before).len() == s.len(),
    decreases s.len(),
{
    broadcast use vstd::seq_lib::group_to_multiset_ensures;

    if s.len() > 0 {
        lemma_sorted_keeps(s.drop_last(), before);
        lemma_placed(sorted_by(s.drop_last(), before), s.last(), before);
        assert(s.drop_last().push(s.last()) =~= s);
        assert(sorted_by(s, before).to_multiset() =~= s.to_multiset());
    }
}

proof fn lemma_placed_in_order<M>(s: Seq<M>, item: M, before: spec_fn(M, M) -> bool)
    requires
        is_ranking(before),
        in_order(s, before),
    ensures
        in_order(placed(s, item, before), before),
        forall|i: int|
            0 <= i < placed(s, item, before).len() ==> {
                ||| #[trigger] placed(s, item, before)[i] == item
                ||| s.contains(placed(s, item, before)[i])
            },
    decreases s.len(),
{
    let t = placed(s, item, before);
    if s.len() > 0 && before(item, s.last()) {
        let front = s.drop_last();
        assert(in_order(front, before)) by {
            assert forall|i: int, j: int| 0 <= i < j < front.len() implies !before(
                #[trigger] front[j],
                #[trigger] front[i],
            ) by {
                assert(front[i] == s[i] && front[j] == s[j]);
            }
        }
        lemma_placed_in_order(front, item, before);
        let u = placed(front, item, before);
        lemma_placed(front, item, before);
        assert forall|i: int| 0 <= i < t.len() implies #[trigger] t[i] == item || s.contains(
            t[i],
        ) by {
            if i < u.len() {
                assert(t[i] == u[i]);
                if u[i] != item {
                    let k = choose|k: int| 0 <= k < front.len() && front[k] == u[i];
                    assert(s[k] == t[i]);
                }
            } else {
                assert(t[i] == s[s.len() - 1]);
            }
        }
        assert forall|i: int, j: int| 0 <= i < j < t.len() implies !before(
            #[trigger] t[j],
            #[trigger] t[i],
        ) by {
            if j < u.len() {
                assert(t[i] == u[i] && t[j] == u[j]);
            } else {
                assert(t[j] == s.last() && t[i] == u[i]);
                if u[i] != item {
                    let k = choose|k: int| 0 <= k < front.len() && front[k] == u[i];
                    assert(s[k] == t[i]);
                }
            }
        }
    } else {
        assert forall|i: int| 0 <= i < t.len() implies #[trigger] t[i] == item || s.contains(
            t[i],
        ) by {
            if i < s.len() {
                assert(t[i] == s[i]);
            }
        }
        assert forall|i: int, j: int| 0 <= i < j < t.len() implies !before(
            #[trigger] t[j],
            #[trigger] t[i],
        ) by {
            if j < s.len() {
                assert(t[i] == s[i] && t[j] == s[j]);
            } else {
                assert(t[i] == s[i]);
                assert(!before(item, s.last()));
                if i < s.len() - 1 {
                    assert(!before(s[s.len() - 1], s[i]));
                }
            }
        }
    }
}

/// Sorting puts the elements in order.
pub proof fn lemma_sorted_in_order<M>(s: Seq<M>, before: spec_fn(M, M) -> bool)
    requires
        is_ranking(before),
    ensures
        in_order(sorted_by(s, before), before),
    decreases s.len(),
{
    if s.len() > 0 {
        lemma_sorted_in_order(s.drop_last(), before);
        lemma_placed_in_order(sorted_by(s.drop_last(), before), s.last(), before);
    }
}

/// Each element goes before all that stand behind it.
pub open spec fn strictly_in_order<M>(s: Seq<M>, before: spec_fn(M, M) -> bool) -> bool {
    forall|i: int, j: int| 0 <= i < j < s.len() ==> before(#[trigger] s[i], #[trigger] s[j])
}

proof fn lemma_one_order<M>(r: Seq<M>, t: Seq<M>, before: spec_fn(M, M) -> bool)
    requires
        is_ranking(before),
        in_order(r, before),
        strictly_in_order(t, before),
        r.to_multiset() == t.to_multiset(),
    ensures
        r == t,
    decreases t.len(),
{
    broadcast use vstd::seq_lib::group_to_multiset_ensures;

    assert(r.len() == t.len()) by {
        assert(r.to_multiset().len() == r.len() && t.to_multiset().len() == t.len());
    }
    if t.len() == 0 {
        assert(r =~= t);
    } else {
        let n = t.len() - 1;
        assert(r.contains(r[n]) && t.contains(t[n]));
        assert(r.to_multiset().count(r[n]) > 0);
        assert(t.contains(r[n]));
        assert(t.to_multiset().count(t[n]) > 0);
        assert(r.contains(t[n]));
        let k = choose|k: int| 0 <= k < t.len() && t[k] == r[n];
        let m = choose|m: int| 0 <= m < r.len() && r[m] == t[n];
        if k < n {
            assert(before(t[k], t[n]));
            if m < n {
                assert(!before(r[n], r[m]));
            }
            assert(false);
        }
        let x = r.drop_last();
        let y = t.drop_last();
        assert(x.push(r[n]) =~= r && y.push(t[n]) =~= t);
        assert(x.to_multiset() =~= r.to_multiset().remove(r[n]));
        assert(y.to_multiset() =~= t.to_multiset().remove(t[n]));
        assert forall|i: int, j: int| 0 <= i < j < x.len() implies !before(
            #[trigger] x[j],
            #[trigger] x[i],
        ) by {
            assert(x[i] == r[i] && x[j] == r[j]);
        }
        assert forall|i: int, j: int| 0 <= i < j < y.len() implies before(
            #[trigger] y[i],
            #[trigger] y[j],
        ) by {
            assert(y[i] == t[i] && y[j] == t[j]);
        }
        lemma_one_order(x, y, before);
    }
}

/// However elements stand of which each two differ in rank, sorting puts them in one order.
pub proof fn lemma_sorted_unique<M>(s: Seq<M>, t: Seq<M>, before: spec_fn(M, M) -> bool)
    requires
        is_ranking(before),
        strictly_in_order(t, before),
        s.to_multiset() == t.to_multiset(),
    ensures
        sorted_by(s, before) == t,
{
    lemma_sorted_keeps(s, before);
    lemma_sorted_in_order(s, before);
    lemma_one_order(sorted_by(s, before), t, before);
}

/// What is in order stays as it is.
pub proof fn lemma_sorted_stays<M>(s: Seq<M>, before: spec_fn(M, M) -> bool)
    requires
        in_order(s, before),
    ensures
        sorted_by(s, before) == s,
    decreases s.len(),
{
    if s.len() > 0 {
        let front = s.drop_last();
        assert forall|i: int, j: int| 0 <= i < j < front.len() implies !before(
            #[trigger] front[j],
            #[trigger] front[i],
        ) by {
            assert(front[i] == s[i] && front[j] == s[j]);
        }
        lemma_sorted_stays(front, before);
        assert(front.push(s.last()) =~= s);
        if front.len() > 0 {
            assert(front.last() == s[s.len() - 2]);
            assert(!before(s[s.len() - 1], s[s.len() - 2]));
        } else {
            assert(seq![s.last()] =~= s);
        }
    }
}

/// A function applied to the same elements in another order gives the same results in another
/// order.
pub proof fn lemma_mapped_elements<M, N>(a: Seq<M>, b: Seq<M>, f: spec_fn(M) -> N)
    requires
        a.to_multiset() == b.to_multiset(),
    ensures
        a.map_values(f).to_multiset() == b.map_values(f).to_multiset(),
    decreases a.len(),
{
    broadcast use vstd::seq_lib::group_to_multiset_ensures;

    assert(a.len() == b.len()) by {
        assert(a.to_multiset().len() == a.len() && b.to_multiset().len() == b.len());
    }
    if a.len() == 0 {
        assert(a.map_values(f) =~= b.map_values(f));
    } else {
        let n = a.len() - 1;
        let x = a[n];
        assert(a.contains(x));
        assert(b.to_multiset().count(x) > 0);
        assert(b.contains(x));
        let j = choose|j: int| 0 <= j < b.len() && b[j] == x;
        let front = a.drop_last();
        let rest = b.remove(j);
        assert(front.push(x) =~= a);
        assert(front.to_multiset() =~= a.to_multiset().remove(x));
        assert(rest.to_multiset() =~= b.to_multiset().remove(x));
        lemma_mapped_elements(front, rest, f);
        assert(front.map_values(f).push(f(x)) =~= a.map_values(f));
        assert(b.map_values(f).remove(j) =~= rest.map_values(f));
        assert(b.map_values(f)[j] == f(x));
        let whole = b.map_values(f).to_multiset();
        assert(whole.count(f(x)) > 0) by {
            assert(b.map_values(f).contains(f(x)));
        }
        assert(rest.map_values(f).to_multiset() =~= whole.remove(f(x)));
        assert(a.map_values(f).to_multiset() =~= whole);
    }
}

} // verus!
