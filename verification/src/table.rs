//! A map with text keys that keeps its entries in the order of their keys. It stands in place of
//! `BTreeMap<String, V>`, of which not even the length after one insertion can be proved.

use crate::text;
use vstd::prelude::*;

verus! {

// ---------------------------------------------------------------------------
// The model: a sequence of entries in ascending order of their keys
// ---------------------------------------------------------------------------

/// The keys ascend, so no key stands twice.
pub open spec fn ordered<V>(s: Seq<(Seq<char>, V)>) -> bool {
    forall|i: int, j: int| 0 <= i < j < s.len() ==> text::precedes(#[trigger] s[i].0, #[trigger] s[j].0)
}

pub open spec fn has_key<V>(s: Seq<(Seq<char>, V)>, key: Seq<char>) -> bool {
    exists|i: int| 0 <= i < s.len() && #[trigger] s[i].0 == key
}

/// The value that stands under a key.
pub open spec fn lookup<V>(s: Seq<(Seq<char>, V)>, key: Seq<char>) -> Option<V>
    decreases s.len(),
{
    if s.len() == 0 {
        None
    } else if s[0].0 == key {
        Some(s[0].1)
    } else {
        lookup(s.skip(1), key)
    }
}

/// The entries with `value` under `key`, in place of what stood there.
pub open spec fn upsert<V>(s: Seq<(Seq<char>, V)>, key: Seq<char>, value: V) -> Seq<
    (Seq<char>, V),
>
    decreases s.len(),
{
    if s.len() == 0 {
        seq![(key, value)]
    } else if s[0].0 == key {
        seq![(key, value)] + s.skip(1)
    } else if text::precedes(key, s[0].0) {
        seq![(key, value)] + s
    } else {
        seq![s[0]] + upsert(s.skip(1), key, value)
    }
}

/// The place of a key among the entries.
pub open spec fn place<V>(s: Seq<(Seq<char>, V)>, key: Seq<char>, at: int) -> bool {
    &&& 0 <= at <= s.len()
    &&& forall|j: int| 0 <= j < at ==> text::precedes(#[trigger] s[j].0, key)
    &&& forall|j: int| at <= j < s.len() ==> !text::precedes(#[trigger] s[j].0, key)
}

/// A key that stands nowhere has no value.
pub proof fn lemma_lookup_some<V>(s: Seq<(Seq<char>, V)>, key: Seq<char>)
    ensures
        has_key(s, key) == (lookup(s, key) is Some),
    decreases s.len(),
{
    if s.len() > 0 {
        let rest = s.skip(1);
        lemma_lookup_some(rest, key);
        if has_key(s, key) && s[0].0 != key {
            let i = choose|i: int| 0 <= i < s.len() && #[trigger] s[i].0 == key;
            assert(rest[i - 1].0 == key);
        }
        if has_key(rest, key) {
            let i = choose|i: int| 0 <= i < rest.len() && #[trigger] rest[i].0 == key;
            assert(s[i + 1].0 == key);
        }
    }
}

pub proof fn lemma_lookup_at<V>(s: Seq<(Seq<char>, V)>, i: int)
    requires
        ordered(s),
        0 <= i < s.len(),
    ensures
        has_key(s, s[i].0),
        lookup(s, s[i].0) == Some(s[i].1),
    decreases s.len(),
{
    if i > 0 {
        let rest = s.skip(1);
        assert(ordered(rest)) by {
            assert forall|a: int, b: int| 0 <= a < b < rest.len() implies text::precedes(
                #[trigger] rest[a].0,
                #[trigger] rest[b].0,
            ) by {
                assert(rest[a] == s[a + 1] && rest[b] == s[b + 1]);
            }
        }
        lemma_lookup_at(rest, i - 1);
        assert(rest[i - 1] == s[i]);
        assert(text::precedes(s[0].0, s[i].0));
        text::lemma_precedes_irreflexive(s[0].0);
    }
}

pub proof fn lemma_place_lookup<V>(s: Seq<(Seq<char>, V)>, key: Seq<char>, at: int)
    requires
        ordered(s),
        place(s, key, at),
    ensures
        lookup(s, key) == (if at < s.len() && s[at].0 == key {
            Some(s[at].1)
        } else {
            None
        }),
{
    lemma_lookup_some(s, key);
    if at < s.len() && s[at].0 == key {
        lemma_lookup_at(s, at);
    } else if has_key(s, key) {
        let k = choose|k: int| 0 <= k < s.len() && #[trigger] s[k].0 == key;
        if k < at {
            text::lemma_precedes_irreflexive(key);
        } else if at < k {
            assert(text::precedes(s[at].0, s[k].0));
        }
    }
}

pub proof fn lemma_place_upsert<V>(s: Seq<(Seq<char>, V)>, key: Seq<char>, value: V, at: int)
    requires
        ordered(s),
        place(s, key, at),
    ensures
        upsert(s, key, value) == (if at < s.len() && s[at].0 == key {
            s.update(at, (key, value))
        } else {
            s.insert(at, (key, value))
        }),
    decreases s.len(),
{
    if s.len() == 0 {
        assert(s.insert(0, (key, value)) == seq![(key, value)]);
    } else if at == 0 {
        text::lemma_precedes_total(key, s[0].0);
        if s[0].0 == key {
            assert(s.update(0, (key, value)) == seq![(key, value)] + s.skip(1));
        } else {
            assert(s.insert(0, (key, value)) == seq![(key, value)] + s);
        }
    } else {
        text::lemma_precedes_asymmetric(s[0].0, key);
        let rest = s.skip(1);
        assert forall|i: int, j: int| 0 <= i < j < rest.len() implies text::precedes(
            #[trigger] rest[i].0,
            #[trigger] rest[j].0,
        ) by {
            assert(rest[i] == s[i + 1] && rest[j] == s[j + 1]);
        }
        assert(place(rest, key, at - 1)) by {
            assert forall|j: int| 0 <= j < at - 1 implies text::precedes(
                #[trigger] rest[j].0,
                key,
            ) by {
                assert(rest[j] == s[j + 1]);
            }
            assert forall|j: int| at - 1 <= j < rest.len() implies !text::precedes(
                #[trigger] rest[j].0,
                key,
            ) by {
                assert(rest[j] == s[j + 1]);
            }
        }
        lemma_place_upsert(rest, key, value, at - 1);
        if at < s.len() && s[at].0 == key {
            assert(rest[at - 1] == s[at]);
            assert(s.update(at, (key, value)) == seq![s[0]] + rest.update(at - 1, (key, value)));
        } else {
            if at - 1 < rest.len() {
                assert(rest[at - 1] == s[at]);
            }
            assert(s.insert(at, (key, value)) == seq![s[0]] + rest.insert(at - 1, (key, value)));
        }
    }
}

/// Two entries with one key are one entry.
pub proof fn lemma_same_place<V>(s: Seq<(Seq<char>, V)>, i: int, j: int)
    requires
        ordered(s),
        0 <= i < s.len(),
        0 <= j < s.len(),
        s[i].0 == s[j].0,
    ensures
        i == j,
{
    text::lemma_precedes_irreflexive(s[i].0);
    if i < j {
        assert(text::precedes(s[i].0, s[j].0));
    } else if j < i {
        assert(text::precedes(s[j].0, s[i].0));
    }
}

/// Every key has its place among ordered entries.
pub proof fn lemma_place_exists<V>(s: Seq<(Seq<char>, V)>, key: Seq<char>) -> (at: int)
    requires
        ordered(s),
    ensures
        place(s, key, at),
    decreases s.len(),
{
    if s.len() == 0 {
        0
    } else if text::precedes(s.last().0, key) {
        assert forall|j: int| 0 <= j < s.len() implies text::precedes(#[trigger] s[j].0, key) by {
            if j < s.len() - 1 {
                text::lemma_precedes_transitive(s[j].0, s.last().0, key);
            }
        }
        s.len() as int
    } else {
        let front = s.drop_last();
        assert(ordered(front)) by {
            assert forall|i: int, j: int| 0 <= i < j < front.len() implies text::precedes(
                #[trigger] front[i].0,
                #[trigger] front[j].0,
            ) by {
                assert(front[i] == s[i] && front[j] == s[j]);
            }
        }
        let at = lemma_place_exists(front, key);
        assert forall|j: int| 0 <= j < at implies text::precedes(#[trigger] s[j].0, key) by {
            assert(front[j] == s[j]);
        }
        assert forall|j: int| at <= j < s.len() implies !text::precedes(#[trigger] s[j].0, key) by {
            if j < front.len() {
                assert(front[j] == s[j]);
            }
        }
        at
    }
}

/// Behind the first `i` keys of ordered entries the next one is stored last.
pub proof fn lemma_upsert_last<U, V>(s: Seq<(Seq<char>, U)>, t: Seq<(Seq<char>, V)>, i: int)
    requires
        ordered(s),
        0 <= i < s.len(),
        t.len() == i,
        forall|j: int| 0 <= j < i ==> (#[trigger] t[j]).0 == s[j].0,
    ensures
        forall|v: V| #[trigger] upsert(t, s[i].0, v) == t.push((s[i].0, v)),
        ordered(t),
{
    assert forall|a: int, b: int| 0 <= a < b < t.len() implies text::precedes(
        #[trigger] t[a].0,
        #[trigger] t[b].0,
    ) by {
        assert(t[a].0 == s[a].0 && t[b].0 == s[b].0);
    }
    assert forall|v: V| #[trigger] upsert(t, s[i].0, v) == t.push((s[i].0, v)) by {
        assert forall|j: int| 0 <= j < i implies text::precedes(#[trigger] t[j].0, s[i].0) by {
            assert(t[j].0 == s[j].0);
        }
        lemma_place_upsert(t, s[i].0, v, i);
    }
}

/// Storing a value keeps the entries in order, and changes what stands under its key and
/// nothing else.
pub proof fn lemma_upsert<V>(s: Seq<(Seq<char>, V)>, key: Seq<char>, value: V)
    requires
        ordered(s),
    ensures
        ordered(upsert(s, key, value)),
        lookup(upsert(s, key, value), key) == Some(value),
        forall|other: Seq<char>|
            other != key ==> #[trigger] lookup(upsert(s, key, value), other) == lookup(s, other),
{
    let at = lemma_place_exists(s, key);
    lemma_place_upsert(s, key, value, at);
    let t = upsert(s, key, value);
    let shift: int = if at < s.len() && s[at].0 == key {
        0
    } else {
        1
    };
    assert forall|i: int, j: int| 0 <= i < j < t.len() implies text::precedes(
        #[trigger] t[i].0,
        #[trigger] t[j].0,
    ) by {
        if i < at && j > at {
            assert(t[i] == s[i] && t[j] == s[j - shift]);
        } else if i < at && j < at {
            assert(t[i] == s[i] && t[j] == s[j]);
        } else if i > at {
            assert(t[i] == s[i - shift] && t[j] == s[j - shift]);
        } else if j == at {
            assert(t[i] == s[i] && t[j].0 == key);
        } else {
            assert(t[i].0 == key && t[j] == s[j - shift]);
            text::lemma_precedes_total(key, s[j - shift].0);
            if s[j - shift].0 == key {
                if shift == 0 {
                    text::lemma_precedes_irreflexive(key);
                    assert(text::precedes(s[at].0, s[j].0));
                } else {
                    if at < j - 1 {
                        assert(text::precedes(s[at].0, s[j - 1].0));
                    }
                }
            }
        }
    }
    assert(t[at] == (key, value));
    lemma_lookup_at(t, at);
    assert forall|other: Seq<char>| other != key implies #[trigger] lookup(t, other) == lookup(
        s,
        other,
    ) by {
        lemma_lookup_some(s, other);
        lemma_lookup_some(t, other);
        if has_key(s, other) {
            let k = choose|k: int| 0 <= k < s.len() && #[trigger] s[k].0 == other;
            let m = if k < at {
                k
            } else {
                k + shift
            };
            assert(t[m] == s[k]);
            lemma_lookup_at(t, m);
            lemma_lookup_at(s, k);
        } else if has_key(t, other) {
            let k = choose|k: int| 0 <= k < t.len() && #[trigger] t[k].0 == other;
            if k < at {
                assert(t[k] == s[k]);
            } else if k > at {
                assert(t[k] == s[k - shift]);
            }
        }
    }
}

/// The entries with their values changed by a function.
pub open spec fn mapped<V, W>(s: Seq<(Seq<char>, V)>, f: spec_fn(V) -> W) -> Seq<(Seq<char>, W)> {
    Seq::new(s.len(), |i: int| (s[i].0, f(s[i].1)))
}

pub open spec fn mapped_option<V, W>(v: Option<V>, f: spec_fn(V) -> W) -> Option<W> {
    match v {
        Some(x) => Some(f(x)),
        None => None,
    }
}

/// Changing the values leaves the keys, so it does not matter whether it is done before or
/// after a look-up or an insertion.
pub proof fn lemma_mapped<V, W>(s: Seq<(Seq<char>, V)>, f: spec_fn(V) -> W, key: Seq<char>)
    ensures
        lookup(mapped(s, f), key) == mapped_option(lookup(s, key), f),
        has_key(mapped(s, f), key) == has_key(s, key),
        ordered(mapped(s, f)) == ordered(s),
        forall|value: V| #[trigger]
            mapped(upsert(s, key, value), f) == upsert(mapped(s, f), key, f(value)),
    decreases s.len(),
{
    let t = mapped(s, f);
    assert(forall|i: int| 0 <= i < s.len() ==> (#[trigger] t[i]).0 == s[i].0);
    if has_key(s, key) {
        let i = choose|i: int| 0 <= i < s.len() && #[trigger] s[i].0 == key;
        assert(t[i].0 == key);
    }
    if ordered(t) {
        assert forall|i: int, j: int| 0 <= i < j < s.len() implies text::precedes(
            #[trigger] s[i].0,
            #[trigger] s[j].0,
        ) by {
            assert(text::precedes(t[i].0, t[j].0));
        }
    }
    if s.len() > 0 {
        assert(t.skip(1) =~= mapped(s.skip(1), f));
        lemma_mapped(s.skip(1), f, key);
        assert forall|value: V| #[trigger] mapped(upsert(s, key, value), f) == upsert(
            t,
            key,
            f(value),
        ) by {
            assert(mapped(upsert(s.skip(1), key, value), f) == upsert(t.skip(1), key, f(value)));
            assert(mapped(upsert(s, key, value), f) =~= upsert(t, key, f(value)));
        }
    } else {
        assert forall|value: V| #[trigger] mapped(upsert(s, key, value), f) == upsert(
            t,
            key,
            f(value),
        ) by {
            assert(mapped(upsert(s, key, value), f) =~= upsert(t, key, f(value)));
        }
    }
}

// ---------------------------------------------------------------------------
// The map
// ---------------------------------------------------------------------------

/// A map with text keys.
#[derive(Debug, PartialEq, Eq)]
pub struct TextMap<V> {
    entries: Vec<(String, V)>,
}

/// The keys and values of a list of entries.
pub open spec fn entries_of<V>(entries: Seq<(String, V)>) -> Seq<(Seq<char>, V)> {
    Seq::new(entries.len(), |i: int| (entries[i].0@, entries[i].1))
}

impl<V> View for TextMap<V> {
    type V = Seq<(Seq<char>, V)>;

    closed spec fn view(&self) -> Seq<(Seq<char>, V)> {
        entries_of(self.entries@)
    }
}

impl<V> TextMap<V> {
    #[verifier::type_invariant]
    spec fn keys_ascend(self) -> bool {
        ordered(entries_of(self.entries@))
    }

    /// The empty map.
    pub fn new() -> (r: Self)
        ensures
            r@ == Seq::<(Seq<char>, V)>::empty(),
    {
        let entries: Vec<(String, V)> = Vec::new();
        assert(entries_of(entries@) == Seq::<(Seq<char>, V)>::empty());
        TextMap { entries }
    }

    /// The number of entries.
    pub fn len(&self) -> (r: usize)
        ensures
            r == self@.len(),
            ordered(self@),
    {
        proof {
            use_type_invariant(self);
        }
        self.entries.len()
    }

    pub fn is_empty(&self) -> (r: bool)
        ensures
            r == (self@.len() == 0),
    {
        self.entries.len() == 0
    }

    /// The key of the entry at an index.
    pub fn key_at(&self, index: usize) -> (r: &str)
        requires
            index < self@.len(),
        ensures
            r@ == self@[index as int].0,
    {
        self.entries[index].0.as_str()
    }

    /// The value of the entry at an index.
    pub fn value_at(&self, index: usize) -> (r: &V)
        requires
            index < self@.len(),
        ensures
            *r == self@[index as int].1,
    {
        &self.entries[index].1
    }

    /// The place of a key among the entries.
    fn search(&self, key: &str) -> (at: usize)
        ensures
            place(self@, key@, at as int),
            ordered(self@),
    {
        proof {
            use_type_invariant(self);
        }
        let ghost s = self@;
        let mut low: usize = 0;
        let mut high: usize = self.entries.len();
        while low < high
            invariant
                s == self@,
                s.len() == self.entries@.len(),
                ordered(s),
                low <= high <= s.len(),
                forall|j: int| 0 <= j < low ==> text::precedes(#[trigger] s[j].0, key@),
                forall|j: int| high <= j < s.len() ==> !text::precedes(#[trigger] s[j].0, key@),
            decreases high - low,
        {
            let middle: usize = low + (high - low) / 2;
            assert(s[middle as int].0 == self.entries@[middle as int].0@);
            if text::is_before(self.entries[middle].0.as_str(), key) {
                assert forall|j: int| 0 <= j < middle + 1 implies text::precedes(
                    #[trigger] s[j].0,
                    key@,
                ) by {
                    if j < middle {
                        text::lemma_precedes_transitive(s[j].0, s[middle as int].0, key@);
                    }
                }
                low = middle + 1;
            } else {
                assert forall|j: int| middle <= j < s.len() implies !text::precedes(
                    #[trigger] s[j].0,
                    key@,
                ) by {
                    if j > middle && text::precedes(s[j].0, key@) {
                        text::lemma_precedes_transitive(s[middle as int].0, s[j].0, key@);
                    }
                }
                high = middle;
            }
        }
        low
    }

    /// The value that stands under a key.
    pub fn get(&self, key: &str) -> (r: Option<&V>)
        ensures
            match r {
                Some(value) => lookup(self@, key@) == Some(*value),
                None => lookup(self@, key@) is None,
            },
    {
        let at: usize = self.search(key);
        proof {
            lemma_place_lookup(self@, key@, at as int);
        }
        if at < self.entries.len() && text::same(self.entries[at].0.as_str(), key) {
            Some(&self.entries[at].1)
        } else {
            None
        }
    }

    /// The index of the entry with a key.
    pub fn position(&self, key: &str) -> (r: Option<usize>)
        ensures
            match r {
                Some(i) => i < self@.len() && self@[i as int].0 == key@,
                None => !has_key(self@, key@),
            },
            ordered(self@),
    {
        let at: usize = self.search(key);
        proof {
            lemma_place_lookup(self@, key@, at as int);
            lemma_lookup_some(self@, key@);
        }
        if at < self.entries.len() && text::same(self.entries[at].0.as_str(), key) {
            Some(at)
        } else {
            None
        }
    }

    /// Puts a value in place of that of the entry at an index, which it gives back.
    pub fn replace_at(&mut self, index: usize, value: V) -> (r: V)
        requires
            index < old(self)@.len(),
        ensures
            r == old(self)@[index as int].1,
            final(self)@ == old(self)@.update(index as int, (old(self)@[index as int].0, value)),
    {
        proof {
            use_type_invariant(&*self);
        }
        let ghost s = self@;
        let mut slot = value;
        let mut entries: Vec<(String, V)> = Vec::new();
        assert(entries_of(entries@) == Seq::<(Seq<char>, V)>::empty());
        std::mem::swap(&mut entries, &mut self.entries);
        let ghost before = entries@;
        std::mem::swap(&mut entries[index].1, &mut slot);
        proof {
            assert(entries_of(entries@) =~= s.update(index as int, (s[index as int].0, value)));
            let t = entries_of(entries@);
            assert forall|a: int, b: int| 0 <= a < b < t.len() implies text::precedes(
                #[trigger] t[a].0,
                #[trigger] t[b].0,
            ) by {
                assert(t[a].0 == s[a].0 && t[b].0 == s[b].0);
            }
        }
        self.entries = entries;
        slot
    }

    pub fn contains_key(&self, key: &str) -> (r: bool)
        ensures
            r == has_key(self@, key@),
    {
        proof {
            lemma_lookup_some(self@, key@);
        }
        self.get(key).is_some()
    }

    /// Stores a value under a key, in place of what stood there; whether a value stood there.
    pub fn insert(&mut self, key: String, value: V) -> (r: bool)
        ensures
            final(self)@ == upsert(old(self)@, key@, value),
            r == has_key(old(self)@, key@),
    {
        let at: usize = self.search(key.as_str());
        let ghost s = self@;
        proof {
            lemma_place_lookup(s, key@, at as int);
            lemma_lookup_some(s, key@);
            lemma_place_upsert(s, key@, value, at as int);
            lemma_upsert(s, key@, value);
        }
        let mut entries: Vec<(String, V)> = Vec::new();
        assert(entries_of(entries@) == Seq::<(Seq<char>, V)>::empty());
        std::mem::swap(&mut entries, &mut self.entries);
        let found = at < entries.len() && text::same(entries[at].0.as_str(), key.as_str());
        if found {
            let ghost before = entries@;
            let ghost k = key@;
            entries[at] = (key, value);
            assert(entries_of(entries@) == s.update(at as int, (k, value)));
        } else {
            let ghost k = key@;
            entries.insert(at, (key, value));
            assert(entries_of(entries@) == s.insert(at as int, (k, value)));
        }
        self.entries = entries;
        found
    }
}

/// The entries without those under a key.
pub open spec fn without<V>(s: Seq<(Seq<char>, V)>, key: Seq<char>) -> Seq<(Seq<char>, V)>
    decreases s.len(),
{
    if s.len() == 0 {
        Seq::empty()
    } else if s.last().0 == key {
        without(s.drop_last(), key)
    } else {
        without(s.drop_last(), key).push(s.last())
    }
}

proof fn lemma_without_absent<V>(s: Seq<(Seq<char>, V)>, key: Seq<char>)
    requires
        forall|i: int| 0 <= i < s.len() ==> (#[trigger] s[i]).0 != key,
    ensures
        without(s, key) == s,
    decreases s.len(),
{
    if s.len() > 0 {
        assert forall|i: int| 0 <= i < s.drop_last().len() implies (#[trigger] s.drop_last()[i]).0
            != key by {
            assert(s.drop_last()[i] == s[i]);
        }
        lemma_without_absent(s.drop_last(), key);
        assert(s.drop_last().push(s.last()) =~= s);
    } else {
        assert(without(s, key) =~= s);
    }
}

/// What is left without a key keeps its order, and loses that key and no other.
pub proof fn lemma_without<V>(s: Seq<(Seq<char>, V)>, key: Seq<char>)
    requires
        ordered(s),
    ensures
        ordered(without(s, key)),
        !has_key(without(s, key), key),
        forall|other: Seq<char>|
            other != key ==> #[trigger] has_key(without(s, key), other) == has_key(s, other),
        forall|i: int| 0 <= i < s.len() && (#[trigger] s[i]).0 == key ==> without(s, key)
            == s.remove(i),
        !has_key(s, key) ==> without(s, key) == s,
{
    if has_key(s, key) {
        let i = choose|i: int| 0 <= i < s.len() && #[trigger] s[i].0 == key;
        lemma_without_at(s, key, i);
        let t = s.remove(i);
        assert forall|a: int, b: int| 0 <= a < b < t.len() implies text::precedes(
            #[trigger] t[a].0,
            #[trigger] t[b].0,
        ) by {
            let x = if a < i {
                a
            } else {
                a + 1
            };
            let y = if b < i {
                b
            } else {
                b + 1
            };
            assert(t[a] == s[x] && t[b] == s[y]);
        }
        assert forall|j: int| 0 <= j < s.len() && (#[trigger] s[j]).0 == key implies without(s, key)
            == s.remove(j) by {
            lemma_same_place(s, i, j);
        }
        if has_key(t, key) {
            let j = choose|j: int| 0 <= j < t.len() && #[trigger] t[j].0 == key;
            let x = if j < i {
                j
            } else {
                j + 1
            };
            assert(t[j] == s[x]);
            lemma_same_place(s, i, x);
        }
        assert forall|other: Seq<char>| other != key implies #[trigger] has_key(t, other)
            == has_key(s, other) by {
            if has_key(s, other) {
                let j = choose|j: int| 0 <= j < s.len() && #[trigger] s[j].0 == other;
                let x = if j < i {
                    j
                } else {
                    j - 1
                };
                assert(t[x] == s[j]);
            }
            if has_key(t, other) {
                let j = choose|j: int| 0 <= j < t.len() && #[trigger] t[j].0 == other;
                let x = if j < i {
                    j
                } else {
                    j + 1
                };
                assert(t[j] == s[x]);
            }
        }
    } else {
        lemma_without_absent(s, key);
    }
}

proof fn lemma_without_at<V>(s: Seq<(Seq<char>, V)>, key: Seq<char>, i: int)
    requires
        ordered(s),
        0 <= i < s.len(),
        s[i].0 == key,
    ensures
        without(s, key) == s.remove(i),
    decreases s.len(),
{
    let front = s.drop_last();
    if i == s.len() - 1 {
        assert forall|j: int| 0 <= j < front.len() implies (#[trigger] front[j]).0 != key by {
            assert(front[j] == s[j]);
            if s[j].0 == key {
                lemma_same_place(s, i, j);
            }
        }
        lemma_without_absent(front, key);
        assert(s.remove(i) =~= front);
    } else {
        assert(ordered(front)) by {
            assert forall|a: int, b: int| 0 <= a < b < front.len() implies text::precedes(
                #[trigger] front[a].0,
                #[trigger] front[b].0,
            ) by {
                assert(front[a] == s[a] && front[b] == s[b]);
            }
        }
        assert(front[i] == s[i]);
        if s.last().0 == key {
            lemma_same_place(s, i, s.len() - 1);
        }
        lemma_without_at(front, key, i);
        assert(front.remove(i).push(s.last()) =~= s.remove(i));
    }
}

impl<V> TextMap<V> {
    /// Takes away the value that stands under a key; whether there was one.
    pub fn remove(&mut self, key: &str) -> (r: bool)
        ensures
            final(self)@ == without(old(self)@, key@),
            r == has_key(old(self)@, key@),
            !r ==> final(self)@ == old(self)@,
    {
        let found = self.position(key);
        let ghost s = self@;
        proof {
            lemma_without(s, key@);
        }
        match found {
            Some(i) => {
                let mut entries: Vec<(String, V)> = Vec::new();
                assert(entries_of(entries@) == Seq::<(Seq<char>, V)>::empty());
                std::mem::swap(&mut entries, &mut self.entries);
                entries.remove(i);
                proof {
                    assert(s[i as int].0 == key@);
                    assert(entries_of(entries@) =~= s.remove(i as int));
                }
                self.entries = entries;
                true
            },
            None => false,
        }
    }

    /// Takes all entries away.
    pub fn clear(&mut self)
        ensures
            final(self)@ == Seq::<(Seq<char>, V)>::empty(),
    {
        let mut entries: Vec<(String, V)> = Vec::new();
        assert(entries_of(entries@) == Seq::<(Seq<char>, V)>::empty());
        std::mem::swap(&mut entries, &mut self.entries);
    }
}

/// A value of a map is smaller than the map.
pub proof fn lemma_value_smaller<V>(map: TextMap<V>, i: int)
    requires
        0 <= i < map@.len(),
    ensures
        decreases_to!(map => map@[i].1),
{
    assert(decreases_to!(map => map.entries));
    assert(decreases_to!(map.entries => map.entries@));
    assert(decreases_to!(map.entries@ => map.entries@[i]));
    assert(decreases_to!(map.entries@[i] => map.entries@[i].1));
}

impl<V: Clone> Clone for TextMap<V> {
    fn clone(&self) -> (r: Self)
        ensures
            r@.len() == self@.len(),
            forall|i: int|
                0 <= i < self@.len() ==> (#[trigger] r@[i]).0 == self@[i].0 && cloned(
                    self@[i].1,
                    r@[i].1,
                ),
    {
        proof {
            use_type_invariant(self);
        }
        let ghost s = self@;
        let mut entries: Vec<(String, V)> = Vec::new();
        let mut i: usize = 0;
        while i < self.entries.len()
            invariant
                s == entries_of(self.entries@),
                i <= self.entries@.len(),
                entries@.len() == i,
                forall|j: int|
                    0 <= j < i ==> (#[trigger] entries@[j]).0@ == s[j].0 && cloned(
                        s[j].1,
                        entries@[j].1,
                    ),
            decreases self.entries@.len() - i,
        {
            entries.push((self.entries[i].0.clone(), self.entries[i].1.clone()));
            i += 1;
        }
        proof {
            let t = entries_of(entries@);
            assert forall|a: int, b: int| 0 <= a < b < t.len() implies text::precedes(
                #[trigger] t[a].0,
                #[trigger] t[b].0,
            ) by {
                assert(t[a].0 == s[a].0 && t[b].0 == s[b].0);
            }
        }
        TextMap { entries }
    }
}

} // verus!
