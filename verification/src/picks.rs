//! What is left of a list when only some of its elements are taken.

use vstd::prelude::*;

verus! {

/// The places are those of the wanted elements, all of them, in their order.
pub open spec fn picks<A>(s: Seq<A>, wanted: spec_fn(A) -> bool, places: Seq<int>) -> bool {
    &&& forall|j: int|
        0 <= j < places.len() ==> 0 <= (#[trigger] places[j]) < s.len() && wanted(s[places[j]])
    &&& forall|j: int, k: int|
        0 <= j < k < places.len() ==> (#[trigger] places[j]) < (#[trigger] places[k])
    &&& forall|i: int| 0 <= i < s.len() && wanted(#[trigger] s[i]) ==> places.contains(i)
}

/// What is made of the elements of which something can be made.
pub open spec fn made<A, B>(s: Seq<A>, f: spec_fn(A) -> Option<B>) -> Seq<B>
    decreases s.len(),
{
    if s.len() == 0 {
        Seq::empty()
    } else {
        match f(s.last()) {
            Some(b) => made(s.drop_last(), f).push(b),
            None => made(s.drop_last(), f),
        }
    }
}

/// Something is made of each element that can be used, in their order.
pub proof fn lemma_made<A, B>(s: Seq<A>, f: spec_fn(A) -> Option<B>) -> (places: Seq<int>)
    ensures
        picks(s, |a: A| f(a) is Some, places),
        made(s, f).len() == places.len(),
        forall|j: int|
            #![trigger places[j]]
            #![trigger made(s, f)[j]]
            0 <= j < places.len() ==> f(s[places[j]]) == Some(made(s, f)[j]),
    decreases s.len(),
{
    let wanted = |a: A| f(a) is Some;
    if s.len() == 0 {
        assert(picks(s, wanted, Seq::<int>::empty()));
        Seq::empty()
    } else {
        let front = s.drop_last();
        let before = lemma_made(front, f);
        let last = s.len() - 1;
        assert forall|j: int| 0 <= j < before.len() implies s[#[trigger] before[j]]
            == front[before[j]] by {}
        let places = if f(s.last()) is Some {
            before.push(last)
        } else {
            before
        };
        assert forall|j: int| 0 <= j < places.len() implies 0 <= (#[trigger] places[j]) < s.len()
            && wanted(s[places[j]]) && f(s[places[j]]) == Some(made(s, f)[j]) by {
            if j < before.len() {
                assert(places[j] == before[j]);
                assert(wanted(front[before[j]]));
            }
        }
        assert forall|j: int, k: int| 0 <= j < k < places.len() implies (#[trigger] places[j])
            < (#[trigger] places[k]) by {
            assert(places[j] == before[j]);
            if k < before.len() {
                assert(places[k] == before[k]);
            }
        }
        assert forall|i: int| 0 <= i < s.len() && wanted(#[trigger] s[i]) implies places.contains(
            i,
        ) by {
            if i < last {
                assert(front[i] == s[i]);
                assert(before.contains(i));
                let j = choose|j: int| 0 <= j < before.len() && before[j] == i;
                assert(places[j] == i);
            } else {
                assert(places[before.len() as int] == last);
            }
        }
        assert(picks(s, wanted, places));
        places
    }
}

/// What is wanted may be said in other words.
pub proof fn lemma_same_wish<A>(
    s: Seq<A>,
    wanted: spec_fn(A) -> bool,
    other: spec_fn(A) -> bool,
    places: Seq<int>,
)
    requires
        picks(s, wanted, places),
        forall|i: int| 0 <= i < s.len() ==> wanted(#[trigger] s[i]) == other(s[i]),
    ensures
        picks(s, other, places),
{
    assert forall|j: int| 0 <= j < places.len() implies 0 <= (#[trigger] places[j]) < s.len()
        && other(s[places[j]]) by {
        assert(wanted(s[places[j]]));
    }
}

/// There is but one way to pick the wanted elements.
pub proof fn lemma_picks_once<A>(s: Seq<A>, wanted: spec_fn(A) -> bool, a: Seq<int>, b: Seq<int>)
    requires
        picks(s, wanted, a),
        picks(s, wanted, b),
    ensures
        a == b,
    decreases a.len() + b.len(),
{
    if a.len() == 0 && b.len() == 0 {
        assert(a =~= b);
    } else if a.len() == 0 {
        assert(wanted(s[b[0]]));
        assert(a.contains(b[0]));
    } else if b.len() == 0 {
        assert(wanted(s[a[0]]));
        assert(b.contains(a[0]));
    } else {
        let x = a.last();
        let y = b.last();
        assert(a[a.len() - 1] == x && b[b.len() - 1] == y);
        let i = lemma_found(s, wanted, a, y);
        let j = lemma_found(s, wanted, b, x);
        assert(y <= x) by {
            if i < a.len() - 1 {
                assert(a[i] < a[a.len() - 1]);
            }
        }
        assert(x <= y) by {
            if j < b.len() - 1 {
                assert(b[j] < b[b.len() - 1]);
            }
        }
        let t = s.take(x);
        lemma_front_picked(s, wanted, a);
        lemma_front_picked(s, wanted, b);
        lemma_picks_once(t, wanted, a.drop_last(), b.drop_last());
        assert(a =~= a.drop_last().push(x));
        assert(b =~= b.drop_last().push(x));
    }
}

proof fn lemma_front_picked<A>(s: Seq<A>, wanted: spec_fn(A) -> bool, places: Seq<int>)
    requires
        picks(s, wanted, places),
        places.len() > 0,
    ensures
        picks(s.take(places.last()), wanted, places.drop_last()),
{
    let x = places.last();
    let t = s.take(x);
    let front = places.drop_last();
    assert(places[places.len() - 1] == x);
    assert forall|j: int| 0 <= j < front.len() implies 0 <= (#[trigger] front[j]) < t.len()
        && wanted(t[front[j]]) by {
        assert(front[j] == places[j]);
        assert(places[j] < places[places.len() - 1]);
    }
    assert forall|j: int, k: int| 0 <= j < k < front.len() implies (#[trigger] front[j])
        < (#[trigger] front[k]) by {
        assert(places[j] < places[k]);
    }
    assert forall|i: int| 0 <= i < t.len() && wanted(#[trigger] t[i]) implies front.contains(i) by {
        assert(wanted(s[i]));
        let j = lemma_found(s, wanted, places, i);
        assert(front[j] == i);
    }
}

/// What was picked can be found again: each wanted element stands in the result, and where none is
/// wanted nothing does.
pub proof fn lemma_found<A>(s: Seq<A>, wanted: spec_fn(A) -> bool, places: Seq<int>, i: int) -> (j:
    int)
    requires
        picks(s, wanted, places),
        0 <= i < s.len(),
        wanted(s[i]),
    ensures
        0 <= j < places.len(),
        places[j] == i,
{
    assert(places.contains(i));
    choose|j: int| 0 <= j < places.len() && places[j] == i
}

} // verus!
