//! Directed graphs with numbered nodes: cycles and shortest ways.

use crate::compose;
use crate::table;
use crate::table::TextMap;
use crate::text;
use vstd::prelude::*;

verus! {

// ---------------------------------------------------------------------------
// Graphs
// ---------------------------------------------------------------------------

/// A graph: the names of its nodes, and for each node the nodes that its edges lead to.
pub struct Graph {
    pub names: Vec<String>,
    pub next: Vec<Vec<usize>>,
}

/// Numbers as mathematical integers.
pub open spec fn ints(s: Seq<usize>) -> Seq<int> {
    Seq::new(s.len(), |i: int| s[i] as int)
}

impl Graph {
    pub open spec fn names(&self) -> Seq<Seq<char>> {
        text::texts(self.names@)
    }

    pub open spec fn edges(&self) -> Seq<Seq<int>> {
        Seq::new(self.next@.len(), |i: int| ints(self.next@[i]@))
    }

    pub open spec fn wf(&self) -> bool {
        self.names@.len() == self.next@.len() && is_graph(self.edges())
    }
}

/// Every edge leads to a node.
pub open spec fn is_graph(g: Seq<Seq<int>>) -> bool {
    forall|i: int, k: int|
        0 <= i < g.len() && 0 <= k < g[i].len() ==> 0 <= #[trigger] g[i][k] < g.len()
}

pub open spec fn edge(g: Seq<Seq<int>>, a: int, b: int) -> bool {
    0 <= a < g.len() && g[a].contains(b)
}

/// Each node but the last has an edge to the next one.
pub open spec fn is_walk(g: Seq<Seq<int>>, w: Seq<int>) -> bool {
    &&& w.len() > 0
    &&& forall|i: int| 0 <= i < w.len() ==> 0 <= #[trigger] w[i] < g.len()
    &&& forall|i: int| 0 <= i < w.len() - 1 ==> edge(g, #[trigger] w[i], w[i + 1])
}

/// Nothing stands twice before the end.
pub open spec fn passes_once<T>(w: Seq<T>) -> bool {
    forall|i: int, j: int| 0 <= i < j < w.len() - 1 ==> #[trigger] w[i] != #[trigger] w[j]
}

/// A walk that comes back to where it starts.
pub open spec fn is_cycle(g: Seq<Seq<int>>, w: Seq<int>) -> bool {
    is_walk(g, w) && w.len() >= 2 && w[0] == w.last()
}

/// The names of the nodes of a walk.
pub open spec fn named(names: Seq<Seq<char>>, w: Seq<int>) -> Seq<Seq<char>> {
    Seq::new(w.len(), |i: int| names[w[i]])
}

// ---------------------------------------------------------------------------
// One name for all rotations of a cycle
// ---------------------------------------------------------------------------

/// The open cycle that starts `k` steps later.
pub open spec fn rotation(open: Seq<Seq<char>>, k: int) -> Seq<Seq<char>> {
    open.skip(k) + open.take(k)
}

/// The first of the names that the first `n` rotations have.
pub open spec fn least_rotation(open: Seq<Seq<char>>, n: int) -> Seq<char>
    decreases n,
{
    if n <= 0 {
        Seq::empty()
    } else {
        let name = compose::joined(rotation(open, n - 1), "\0"@);
        if n == 1 || text::precedes(name, least_rotation(open, n - 1)) {
            name
        } else {
            least_rotation(open, n - 1)
        }
    }
}

/// The name of a cycle: the same for all its rotations.
pub open spec fn cycle_key(ids: Seq<Seq<char>>) -> Seq<char> {
    if ids.len() == 0 {
        Seq::empty()
    } else {
        least_rotation(ids.drop_last(), ids.len() - 1)
    }
}

/// The least name is the name of a rotation, and no rotation's name goes before it.
proof fn lemma_least_rotation(open: Seq<Seq<char>>, n: int) -> (k: int)
    requires
        1 <= n,
    ensures
        0 <= k < n,
        least_rotation(open, n) == compose::joined(rotation(open, k), "\0"@),
        forall|j: int|
            0 <= j < n ==> !text::precedes(
                compose::joined(#[trigger] rotation(open, j), "\0"@),
                least_rotation(open, n),
            ),
    decreases n,
{
    let name = compose::joined(rotation(open, n - 1), "\0"@);
    text::lemma_precedes_irreflexive(name);
    if n == 1 {
        0
    } else {
        let k = lemma_least_rotation(open, n - 1);
        let before = least_rotation(open, n - 1);
        if text::precedes(name, before) {
            assert forall|j: int| 0 <= j < n implies !text::precedes(
                compose::joined(#[trigger] rotation(open, j), "\0"@),
                name,
            ) by {
                let other = compose::joined(rotation(open, j), "\0"@);
                if j < n - 1 && text::precedes(other, name) {
                    text::lemma_precedes_transitive(other, name, before);
                }
            }
            n - 1
        } else {
            k
        }
    }
}

proof fn lemma_rotation_of_rotation(open: Seq<Seq<char>>, k: int, j: int)
    requires
        0 <= k < open.len(),
        0 <= j < open.len(),
    ensures
        rotation(rotation(open, k), j) == rotation(
            open,
            if k + j < open.len() {
                k + j
            } else {
                k + j - open.len()
            },
        ),
{
    let to = if k + j < open.len() {
        k + j
    } else {
        k + j - open.len()
    };
    assert(rotation(rotation(open, k), j) =~= rotation(open, to));
}

/// All rotations of a cycle have one name.
pub proof fn law_rotations_share_a_key(ids: Seq<Seq<char>>, k: int)
    requires
        ids.len() >= 2,
        0 <= k < ids.len() - 1,
    ensures
        ({
            let turned = rotation(ids.drop_last(), k);
            cycle_key(turned.push(turned[0])) == cycle_key(ids)
        }),
{
    let open = ids.drop_last();
    let n = open.len() as int;
    let turned = rotation(open, k);
    assert(turned.push(turned[0]).drop_last() =~= turned);
    let a = lemma_least_rotation(open, n);
    let b = lemma_least_rotation(turned, n);
    let x = least_rotation(open, n);
    let y = least_rotation(turned, n);
    lemma_rotation_of_rotation(open, k, b);
    let there = if k + b < n {
        k + b
    } else {
        k + b - n
    };
    assert(!text::precedes(compose::joined(rotation(open, there), "\0"@), x));
    let back = if a >= k {
        a - k
    } else {
        a - k + n
    };
    lemma_rotation_of_rotation(open, k, back);
    assert(!text::precedes(compose::joined(rotation(turned, back), "\0"@), y));
    text::lemma_precedes_total(x, y);
}

/// The name of a cycle: the same for all its rotations.
pub fn canonical_cycle_key(ids: &Vec<String>) -> (r: String)
    ensures
        r@ == cycle_key(text::texts(ids@)),
{
    if ids.len() == 0 {
        return String::new();
    }
    let n: usize = ids.len() - 1;
    let ghost all = text::texts(ids@);
    let ghost open = all.drop_last();
    let mut least = String::new();
    let mut k: usize = 0;
    while k < n
        invariant
            k <= n == open.len(),
            n < ids@.len(),
            open == text::texts(ids@).drop_last(),
            least@ == least_rotation(open, k as int),
        decreases n - k,
    {
        let mut turned: Vec<String> = Vec::new();
        let mut i: usize = 0;
        while i < n
            invariant
                i <= n == open.len(),
                k < n < ids@.len(),
                open == text::texts(ids@).drop_last(),
                turned@.len() == i,
                forall|j: int| 0 <= j < i ==> (#[trigger] turned@[j])@ == rotation(open, k as int)[j],
            decreases n - i,
        {
            let from: usize = if i < n - k {
                k + i
            } else {
                i - (n - k)
            };
            assert(ids@[from as int]@ == rotation(open, k as int)[i as int]);
            turned.push(ids[from].clone());
            i += 1;
        }
        assert(text::texts(turned@) =~= rotation(open, k as int));
        let name = compose::join(&turned, "\0");
        if k == 0 || text::is_before(name.as_str(), least.as_str()) {
            least = name;
        }
        k += 1;
    }
    least
}

// ---------------------------------------------------------------------------
// Searching in depth
// ---------------------------------------------------------------------------

/// How far a node has been searched.
#[derive(Debug, Clone, Copy, PartialEq, Eq, Structural)]
pub enum Mark {
    Fresh,
    Open,
    Done,
}

/// A search: the marks of the nodes, the way to the node that is being searched, the nodes that
/// are done in the order in which they were, and the cycles found with their names.
#[verifier::ext_equal]
pub ghost struct Search {
    pub marks: Seq<Mark>,
    pub stack: Seq<int>,
    pub finished: Seq<int>,
    pub cycles: Seq<Seq<int>>,
    pub seen: Seq<Seq<char>>,
}

/// The number of nodes that have not been searched.
pub open spec fn fresh(marks: Seq<Mark>) -> nat
    decreases marks.len(),
{
    if marks.len() == 0 {
        0
    } else {
        fresh(marks.drop_last()) + (if marks.last() == Mark::Fresh {
            1nat
        } else {
            0
        })
    }
}

pub proof fn lemma_fresh_update(marks: Seq<Mark>, i: int, m: Mark)
    requires
        0 <= i < marks.len(),
    ensures
        fresh(marks.update(i, m)) == fresh(marks) - (if marks[i] == Mark::Fresh {
            1int
        } else {
            0
        }) + (if m == Mark::Fresh {
            1int
        } else {
            0
        }),
    decreases marks.len(),
{
    let after = marks.update(i, m);
    if i == marks.len() - 1 {
        assert(after.drop_last() =~= marks.drop_last());
    } else {
        assert(after.drop_last() =~= marks.drop_last().update(i, m));
        lemma_fresh_update(marks.drop_last(), i, m);
    }
}

/// The first place of a node on the way, at or behind `from`.
pub open spec fn spot(stack: Seq<int>, node: int, from: int) -> Option<int>
    decreases stack.len() - from,
{
    if from < 0 || from >= stack.len() {
        None
    } else if stack[from] == node {
        Some(from)
    } else {
        spot(stack, node, from + 1)
    }
}

/// An edge leads back to a node on the way: the cycle that it closes is kept if no rotation of
/// it is known.
pub open spec fn note(names: Seq<Seq<char>>, node: int, s: Search) -> Search {
    match spot(s.stack, node, 0) {
        None => s,
        Some(start) => {
            let walk = s.stack.skip(start).push(node);
            let key = cycle_key(named(names, walk));
            if s.seen.contains(key) {
                s
            } else {
                Search { cycles: s.cycles.push(walk), seen: s.seen.push(key), ..s }
            }
        },
    }
}

/// The search of a node and of all that it leads to.
pub open spec fn visit(g: Seq<Seq<int>>, names: Seq<Seq<char>>, node: int, s: Search) -> Search
    decreases fresh(s.marks), 0int, 0int,
{
    if !(0 <= node < g.len() && s.marks.len() == g.len() && s.marks[node] == Mark::Fresh) {
        s
    } else {
        proof {
            lemma_fresh_update(s.marks, node, Mark::Open);
        }
        let entered = Search {
            marks: s.marks.update(node, Mark::Open),
            stack: s.stack.push(node),
            ..s
        };
        let searched = visit_next(g, names, node, 0, entered);
        Search {
            marks: searched.marks.update(node, Mark::Done),
            stack: searched.stack.drop_last(),
            finished: searched.finished.push(node),
            ..searched
        }
    }
}

/// The search along the edges of a node from the `k`th on. (No search makes a node fresh again:
/// `lemma_visit`.)
pub open spec fn visit_next(
    g: Seq<Seq<int>>,
    names: Seq<Seq<char>>,
    node: int,
    k: int,
    s: Search,
) -> Search
    decreases fresh(s.marks), 1int, g[node].len() - k,
{
    if k < 0 || k >= g[node].len() {
        s
    } else {
        let to = g[node][k];
        let t = match s.marks[to] {
            Mark::Fresh => visit(g, names, to, s),
            Mark::Open => note(names, to, s),
            Mark::Done => s,
        };
        if fresh(t.marks) <= fresh(s.marks) {
            visit_next(g, names, node, k + 1, t)
        } else {
            t
        }
    }
}

/// The search of all nodes from the `i`th on that an earlier search has not reached.
pub open spec fn visit_from(g: Seq<Seq<int>>, names: Seq<Seq<char>>, i: int, s: Search) -> Search
    decreases g.len() - i,
{
    if i < 0 || i >= g.len() {
        s
    } else if s.marks[i] == Mark::Fresh {
        visit_from(g, names, i + 1, visit(g, names, i, s))
    } else {
        visit_from(g, names, i + 1, s)
    }
}

pub open spec fn no_search(n: nat) -> Search {
    Search {
        marks: Seq::new(n, |i: int| Mark::Fresh),
        stack: Seq::empty(),
        finished: Seq::empty(),
        cycles: Seq::empty(),
        seen: Seq::empty(),
    }
}

/// The search of a whole graph.
pub open spec fn full_search(g: Seq<Seq<int>>, names: Seq<Seq<char>>) -> Search {
    visit_from(g, names, 0, no_search(g.len()))
}

// ---------------------------------------------------------------------------
// What a search keeps
// ---------------------------------------------------------------------------

pub open spec fn holds(s: Seq<int>, node: int) -> bool {
    exists|i: int| 0 <= i < s.len() && #[trigger] s[i] == node
}

pub open spec fn distinct(s: Seq<int>) -> bool {
    forall|i: int, j: int| 0 <= i < j < s.len() ==> #[trigger] s[i] != #[trigger] s[j]
}

/// The node is done before the `n`th of the finished ones.
pub open spec fn done_before(finished: Seq<int>, node: int, n: int) -> bool {
    exists|q: int| 0 <= q < n && #[trigger] finished[q] == node
}

/// Each finished node was finished after all that it leads to.
pub open spec fn in_turn(g: Seq<Seq<int>>, finished: Seq<int>) -> bool {
    forall|p: int, k: int|
        0 <= p < finished.len() && 0 <= k < g[finished[p]].len() ==> done_before(
            finished,
            #[trigger] g[finished[p]][k],
            p,
        )
}

/// What holds throughout a search.
pub open spec fn sound(g: Seq<Seq<int>>, names: Seq<Seq<char>>, s: Search) -> bool {
    &&& s.marks.len() == g.len()
    &&& distinct(s.stack)
    &&& forall|i: int| 0 <= i < s.stack.len() ==> 0 <= #[trigger] s.stack[i] < g.len()
    &&& forall|i: int|
        0 <= i < s.stack.len() - 1 ==> edge(g, #[trigger] s.stack[i], s.stack[i + 1])
    &&& forall|v: int|
        0 <= v < g.len() ==> ((#[trigger] s.marks[v]) == Mark::Open) == holds(s.stack, v)
    &&& forall|v: int|
        0 <= v < g.len() ==> ((#[trigger] s.marks[v]) == Mark::Done) == holds(s.finished, v)
    &&& forall|i: int| 0 <= i < s.finished.len() ==> 0 <= #[trigger] s.finished[i] < g.len()
    &&& distinct(s.finished)
    &&& forall|c: int|
        0 <= c < s.cycles.len() ==> is_cycle(g, #[trigger] s.cycles[c]) && passes_once(s.cycles[c])
    &&& s.seen.len() == s.cycles.len()
    &&& forall|c: int|
        0 <= c < s.cycles.len() ==> #[trigger] s.seen[c] == cycle_key(named(names, s.cycles[c]))
    &&& forall|a: int, b: int|
        0 <= a < b < s.seen.len() ==> #[trigger] s.seen[a] != #[trigger] s.seen[b]
    &&& s.cycles.len() == 0 ==> in_turn(g, s.finished)
}

/// A later state of a search: what was done stays done, the way is the same again, and no cycle
/// is forgotten.
pub open spec fn later(s: Search, t: Search) -> bool {
    &&& t.stack == s.stack
    &&& t.marks.len() == s.marks.len()
    &&& forall|v: int|
        0 <= v < s.marks.len() && s.marks[v] == Mark::Done ==> #[trigger] t.marks[v] == Mark::Done
    &&& fresh(t.marks) <= fresh(s.marks)
    &&& t.cycles.len() >= s.cycles.len()
}

/// The spot of a node is where it stands, and there is none where it does not stand.
pub proof fn lemma_spot(stack: Seq<int>, node: int, from: int)
    requires
        0 <= from,
        forall|i: int| 0 <= i < from && i < stack.len() ==> #[trigger] stack[i] != node,
    ensures
        match spot(stack, node, from) {
            Some(i) => from <= i < stack.len() && stack[i] == node,
            None => !holds(stack, node),
        },
    decreases stack.len() - from,
{
    if from < stack.len() && stack[from] != node {
        lemma_spot(stack, node, from + 1);
    }
}

/// Noting an edge that leads back keeps what holds.
pub proof fn lemma_note(g: Seq<Seq<int>>, names: Seq<Seq<char>>, node: int, s: Search)
    requires
        is_graph(g),
        sound(g, names, s),
        s.stack.len() > 0,
        0 <= node < g.len(),
        s.marks[node] == Mark::Open,
        edge(g, s.stack.last(), node),
    ensures
        sound(g, names, note(names, node, s)),
        later(s, note(names, node, s)),
        note(names, node, s).cycles.len() > 0,
        note(names, node, s).marks == s.marks,
{
    lemma_spot(s.stack, node, 0);
    let start = spot(s.stack, node, 0)->Some_0;
    let walk = s.stack.skip(start).push(node);
    let n = s.stack.len() - start;
    assert forall|i: int| 0 <= i < walk.len() implies 0 <= #[trigger] walk[i] < g.len() by {
        if i < n {
            assert(walk[i] == s.stack[start + i]);
        }
    }
    assert forall|i: int| 0 <= i < walk.len() - 1 implies edge(g, #[trigger] walk[i], walk[i + 1]) by {
        assert(walk[i] == s.stack[start + i]);
        if i + 1 < n {
            assert(walk[i + 1] == s.stack[start + i + 1]);
        } else {
            assert(walk[i] == s.stack.last());
        }
    }
    assert(walk[0] == node);
    let key = cycle_key(named(names, walk));
    let t = note(names, node, s);
    if s.seen.contains(key) {
        let i = choose|i: int| 0 <= i < s.seen.len() && s.seen[i] == key;
        assert(s.cycles.len() > 0);
    } else {
        assert forall|a: int, b: int| 0 <= a < b < t.seen.len() implies #[trigger] t.seen[a]
            != #[trigger] t.seen[b] by {
            if b == s.seen.len() {
                assert(t.seen[a] == s.seen[a]);
            }
        }
        assert forall|i: int, j: int| 0 <= i < j < walk.len() - 1 implies #[trigger] walk[i]
            != #[trigger] walk[j] by {
            assert(walk[i] == s.stack[start + i] && walk[j] == s.stack[start + j]);
        }
        assert forall|c: int| 0 <= c < t.cycles.len() implies is_cycle(g, #[trigger] t.cycles[c])
            && passes_once(t.cycles[c]) by {
            if c < s.cycles.len() {
                assert(t.cycles[c] == s.cycles[c]);
            }
        }
        assert forall|c: int| 0 <= c < t.cycles.len() implies #[trigger] t.seen[c] == cycle_key(
            named(names, t.cycles[c]),
        ) by {
            if c < s.cycles.len() {
                assert(t.cycles[c] == s.cycles[c] && t.seen[c] == s.seen[c]);
            }
        }
    }
}

/// Entering a node keeps what holds.
pub proof fn lemma_enter(g: Seq<Seq<int>>, names: Seq<Seq<char>>, node: int, s: Search)
    requires
        is_graph(g),
        sound(g, names, s),
        0 <= node < g.len(),
        s.marks[node] == Mark::Fresh,
        s.stack.len() > 0 ==> edge(g, s.stack.last(), node),
    ensures
        ({
            let t = Search {
                marks: s.marks.update(node, Mark::Open),
                stack: s.stack.push(node),
                ..s
            };
            sound(g, names, t) && fresh(t.marks) == fresh(s.marks) - 1
        }),
{
    let t = Search { marks: s.marks.update(node, Mark::Open), stack: s.stack.push(node), ..s };
    lemma_fresh_update(s.marks, node, Mark::Open);
    assert(!holds(s.stack, node));
    assert(!holds(s.finished, node));
    assert forall|i: int, j: int| 0 <= i < j < t.stack.len() implies #[trigger] t.stack[i]
        != #[trigger] t.stack[j] by {
        assert(t.stack[i] == s.stack[i]);
        if j < s.stack.len() {
            assert(t.stack[j] == s.stack[j]);
        }
    }
    assert forall|i: int| 0 <= i < t.stack.len() - 1 implies edge(
        g,
        #[trigger] t.stack[i],
        t.stack[i + 1],
    ) by {
        assert(t.stack[i] == s.stack[i]);
        if i + 1 < s.stack.len() {
            assert(t.stack[i + 1] == s.stack[i + 1]);
        }
    }
    assert forall|v: int| 0 <= v < g.len() implies ((#[trigger] t.marks[v]) == Mark::Open)
        == holds(t.stack, v) by {
        if v == node {
            assert(t.stack[s.stack.len() as int] == node);
        } else {
            assert(t.marks[v] == s.marks[v]);
            if holds(s.stack, v) {
                let i = choose|i: int| 0 <= i < s.stack.len() && #[trigger] s.stack[i] == v;
                assert(t.stack[i] == v);
            }
            if holds(t.stack, v) {
                let i = choose|i: int| 0 <= i < t.stack.len() && #[trigger] t.stack[i] == v;
                assert(s.stack[i] == v);
            }
        }
    }
    assert forall|v: int| 0 <= v < g.len() implies ((#[trigger] t.marks[v]) == Mark::Done)
        == holds(t.finished, v) by {
        if v != node {
            assert(t.marks[v] == s.marks[v]);
        }
    }
}

proof fn lemma_leave(g: Seq<Seq<int>>, names: Seq<Seq<char>>, node: int, s: Search)
    requires
        is_graph(g),
        sound(g, names, s),
        0 <= node < g.len(),
        s.stack.len() > 0,
        s.stack.last() == node,
        s.cycles.len() == 0 ==> forall|k: int|
            0 <= k < g[node].len() ==> s.marks[#[trigger] g[node][k]] == Mark::Done,
    ensures
        ({
            let t = Search {
                marks: s.marks.update(node, Mark::Done),
                stack: s.stack.drop_last(),
                finished: s.finished.push(node),
                ..s
            };
            sound(g, names, t) && fresh(t.marks) == fresh(s.marks)
        }),
{
    let t = Search {
        marks: s.marks.update(node, Mark::Done),
        stack: s.stack.drop_last(),
        finished: s.finished.push(node),
        ..s
    };
    let top = s.stack.len() - 1;
    assert(s.stack[top] == node);
    assert(holds(s.stack, node));
    assert(s.marks[node] == Mark::Open);
    lemma_fresh_update(s.marks, node, Mark::Done);
    assert(!holds(s.finished, node));
    assert forall|i: int, j: int| 0 <= i < j < t.stack.len() implies #[trigger] t.stack[i]
        != #[trigger] t.stack[j] by {
        assert(t.stack[i] == s.stack[i] && t.stack[j] == s.stack[j]);
    }
    assert forall|i: int| 0 <= i < t.stack.len() - 1 implies edge(
        g,
        #[trigger] t.stack[i],
        t.stack[i + 1],
    ) by {
        assert(t.stack[i] == s.stack[i] && t.stack[i + 1] == s.stack[i + 1]);
    }
    assert forall|v: int| 0 <= v < g.len() implies ((#[trigger] t.marks[v]) == Mark::Open)
        == holds(t.stack, v) by {
        if v == node {
            if holds(t.stack, v) {
                let i = choose|i: int| 0 <= i < t.stack.len() && #[trigger] t.stack[i] == v;
                assert(s.stack[i] == v);
            }
        } else {
            assert(t.marks[v] == s.marks[v]);
            if holds(s.stack, v) {
                let i = choose|i: int| 0 <= i < s.stack.len() && #[trigger] s.stack[i] == v;
                assert(t.stack[i] == v);
            }
            if holds(t.stack, v) {
                let i = choose|i: int| 0 <= i < t.stack.len() && #[trigger] t.stack[i] == v;
                assert(s.stack[i] == v);
            }
        }
    }
    assert forall|v: int| 0 <= v < g.len() implies ((#[trigger] t.marks[v]) == Mark::Done)
        == holds(t.finished, v) by {
        if v == node {
            assert(t.finished[s.finished.len() as int] == node);
        } else {
            assert(t.marks[v] == s.marks[v]);
            if holds(s.finished, v) {
                let i = choose|i: int| 0 <= i < s.finished.len() && #[trigger] s.finished[i] == v;
                assert(t.finished[i] == v);
            }
            if holds(t.finished, v) {
                let i = choose|i: int| 0 <= i < t.finished.len() && #[trigger] t.finished[i] == v;
                assert(s.finished[i] == v);
            }
        }
    }
    assert forall|i: int, j: int| 0 <= i < j < t.finished.len() implies #[trigger] t.finished[i]
        != #[trigger] t.finished[j] by {
        assert(t.finished[i] == s.finished[i]);
        if j < s.finished.len() {
            assert(t.finished[j] == s.finished[j]);
        }
    }
    if s.cycles.len() == 0 {
        assert forall|p: int, k: int|
            0 <= p < t.finished.len() && 0 <= k < g[t.finished[p]].len() implies done_before(
            t.finished,
            #[trigger] g[t.finished[p]][k],
            p,
        ) by {
            let v = g[t.finished[p]][k];
            if p < s.finished.len() {
                assert(t.finished[p] == s.finished[p]);
                assert(done_before(s.finished, g[s.finished[p]][k], p));
                let q = choose|q: int| 0 <= q < p && #[trigger] s.finished[q] == v;
                assert(t.finished[q] == v);
            } else {
                assert(s.marks[g[node][k]] == Mark::Done);
                assert(holds(s.finished, v));
                let q = choose|q: int| 0 <= q < s.finished.len() && #[trigger] s.finished[q] == v;
                assert(t.finished[q] == v);
            }
        }
    }
}

/// The search of a node keeps what holds, and the node is done after it.
pub proof fn lemma_visit(g: Seq<Seq<int>>, names: Seq<Seq<char>>, node: int, s: Search)
    requires
        is_graph(g),
        sound(g, names, s),
        0 <= node < g.len(),
        s.marks[node] == Mark::Fresh,
        s.stack.len() > 0 ==> edge(g, s.stack.last(), node),
    ensures
        sound(g, names, visit(g, names, node, s)),
        later(s, visit(g, names, node, s)),
        visit(g, names, node, s).marks[node] == Mark::Done,
    decreases fresh(s.marks), 0int, 0int,
{
    lemma_enter(g, names, node, s);
    let entered = Search {
        marks: s.marks.update(node, Mark::Open),
        stack: s.stack.push(node),
        ..s
    };
    lemma_visit_next(g, names, node, 0, entered);
    let searched = visit_next(g, names, node, 0, entered);
    lemma_leave(g, names, node, searched);
    assert(entered.stack.drop_last() =~= s.stack);
    let t = visit(g, names, node, s);
    assert forall|v: int| 0 <= v < s.marks.len() && s.marks[v] == Mark::Done implies (
    #[trigger] t.marks[v]) == Mark::Done by {
        assert(entered.marks[v] == Mark::Done);
        assert(searched.marks[v] == Mark::Done);
    }
}

pub proof fn lemma_visit_next(
    g: Seq<Seq<int>>,
    names: Seq<Seq<char>>,
    node: int,
    k: int,
    s: Search,
)
    requires
        is_graph(g),
        sound(g, names, s),
        0 <= node < g.len(),
        0 <= k <= g[node].len(),
        s.stack.len() > 0,
        s.stack.last() == node,
        s.cycles.len() == 0 ==> forall|j: int|
            0 <= j < k ==> s.marks[#[trigger] g[node][j]] == Mark::Done,
    ensures
        ({
            let t = visit_next(g, names, node, k, s);
            &&& sound(g, names, t)
            &&& later(s, t)
            &&& t.cycles.len() == 0 ==> forall|j: int|
                0 <= j < g[node].len() ==> t.marks[#[trigger] g[node][j]] == Mark::Done
        }),
    decreases fresh(s.marks), 1int, g[node].len() - k,
{
    if k < g[node].len() {
        let to = g[node][k];
        assert(0 <= g[node][k] < g.len());
        assert(g[node].contains(to));
        let t = match s.marks[to] {
            Mark::Fresh => visit(g, names, to, s),
            Mark::Open => note(names, to, s),
            Mark::Done => s,
        };
        match s.marks[to] {
            Mark::Fresh => {
                lemma_visit(g, names, to, s);
            },
            Mark::Open => {
                lemma_note(g, names, to, s);
            },
            Mark::Done => {},
        }
        assert forall|j: int| t.cycles.len() == 0 && 0 <= j < k + 1 implies t.marks[#[trigger] g[node][j]]
            == Mark::Done by {
            assert(0 <= g[node][j] < g.len());
            if j < k {
                assert(s.marks[g[node][j]] == Mark::Done);
            }
        }
        lemma_visit_next(g, names, node, k + 1, t);
        let u = visit_next(g, names, node, k + 1, t);
        assert(later(s, u)) by {
            assert forall|v: int| 0 <= v < s.marks.len() && s.marks[v] == Mark::Done implies (
            #[trigger] u.marks[v]) == Mark::Done by {
                assert(t.marks[v] == Mark::Done);
            }
        }
    }
}

/// The search of all nodes keeps what holds, and all of them are done after it.
pub proof fn lemma_visit_from(g: Seq<Seq<int>>, names: Seq<Seq<char>>, i: int, s: Search)
    requires
        is_graph(g),
        sound(g, names, s),
        s.stack.len() == 0,
        0 <= i <= g.len(),
        forall|v: int| 0 <= v < i ==> (#[trigger] s.marks[v]) == Mark::Done,
    ensures
        ({
            let t = visit_from(g, names, i, s);
            &&& sound(g, names, t)
            &&& forall|v: int| 0 <= v < g.len() ==> (#[trigger] t.marks[v]) == Mark::Done
        }),
    decreases g.len() - i,
{
    if i < g.len() {
        if s.marks[i] == Mark::Fresh {
            lemma_visit(g, names, i, s);
            lemma_visit_from(g, names, i + 1, visit(g, names, i, s));
        } else {
            assert(!holds(s.stack, i));
            assert(s.marks[i] == Mark::Done);
            lemma_visit_from(g, names, i + 1, s);
        }
    }
}

/// What holds of a search holds before it.
pub proof fn lemma_no_search(g: Seq<Seq<int>>, names: Seq<Seq<char>>)
    ensures
        sound(g, names, no_search(g.len())),
{
    let s = no_search(g.len());
    assert(forall|v: int| 0 <= v < g.len() ==> (#[trigger] s.marks[v]) == Mark::Fresh);
}

/// Along an edge the finishing time falls.
proof fn lemma_falls(g: Seq<Seq<int>>, finished: Seq<int>, w: Seq<int>, n: int) -> (at: int)
    requires
        is_walk(g, w),
        distinct(finished),
        in_turn(g, finished),
        forall|v: int| 0 <= v < g.len() ==> holds(finished, v),
        0 <= n < w.len(),
    ensures
        0 <= at < finished.len(),
        finished[at] == w[n],
        forall|p: int|
            0 <= p < finished.len() && #[trigger] finished[p] == w[0] ==> at <= p - n,
    decreases n,
{
    if n == 0 {
        assert(holds(finished, w[0]));
        let at = choose|i: int| 0 <= i < finished.len() && #[trigger] finished[i] == w[0];
        at
    } else {
        let before = lemma_falls(g, finished, w, n - 1);
        assert(edge(g, w[n - 1], w[n - 1 + 1]));
        let out = g[w[n - 1]];
        let k = choose|k: int| 0 <= k < out.len() && #[trigger] out[k] == w[n];
        assert(g[finished[before]][k] == w[n]);
        assert(done_before(finished, g[finished[before]][k], before));
        let at = choose|q: int| 0 <= q < before && #[trigger] finished[q] == w[n];
        at
    }
}

/// A search finds only cycles that pass no node twice before they close, no two of them rotations
/// of each other, and it finds one if and only if there is one.
pub proof fn law_search_finds_cycles(g: Seq<Seq<int>>, names: Seq<Seq<char>>)
    requires
        is_graph(g),
    ensures
        forall|c: int|
            0 <= c < full_search(g, names).cycles.len() ==> is_cycle(
                g,
                #[trigger] full_search(g, names).cycles[c],
            ) && passes_once(full_search(g, names).cycles[c]),
        forall|a: int, b: int|
            0 <= a < b < full_search(g, names).cycles.len() ==> cycle_key(
                named(names, #[trigger] full_search(g, names).cycles[a]),
            ) != cycle_key(named(names, #[trigger] full_search(g, names).cycles[b])),
        (full_search(g, names).cycles.len() == 0) == !(exists|w: Seq<int>| is_cycle(g, w)),
{
    lemma_no_search(g, names);
    let s = no_search(g.len());
    lemma_visit_from(g, names, 0, s);
    let t = full_search(g, names);
    assert forall|a: int, b: int| 0 <= a < b < t.cycles.len() implies cycle_key(
        named(names, #[trigger] t.cycles[a]),
    ) != cycle_key(named(names, #[trigger] t.cycles[b])) by {
        assert(t.seen[a] != t.seen[b]);
    }
    if t.cycles.len() == 0 {
        if exists|w: Seq<int>| is_cycle(g, w) {
            let w = choose|w: Seq<int>| is_cycle(g, w);
            assert forall|v: int| 0 <= v < g.len() implies holds(t.finished, v) by {
                assert(t.marks[v] == Mark::Done);
            }
            let at = lemma_falls(g, t.finished, w, w.len() - 1);
            assert(t.finished[at] == w[0]);
        }
    } else {
        assert(is_cycle(g, t.cycles[0]));
    }
}

// ---------------------------------------------------------------------------
// The search in depth
// ---------------------------------------------------------------------------

struct Searcher {
    marks: Vec<Mark>,
    stack: Vec<usize>,
    cycles: Vec<Vec<usize>>,
    seen: TextMap<()>,
    model: Ghost<Search>,
}

impl Searcher {
    spec fn wf(&self) -> bool {
        &&& self.marks@ == self.model@.marks
        &&& ints(self.stack@) == self.model@.stack
        &&& self.cycles@.len() == self.model@.cycles.len()
        &&& forall|c: int|
            0 <= c < self.cycles@.len() ==> ints((#[trigger] self.cycles@[c])@)
                == self.model@.cycles[c]
        &&& table::ordered(self.seen@)
        &&& forall|key: Seq<char>| #[trigger]
            table::has_key(self.seen@, key) == self.model@.seen.contains(key)
    }

    /// An edge leads back to a node on the way.
    fn note(&mut self, graph: &Graph, node: usize)
        requires
            old(self).wf(),
            graph.wf(),
            node < graph.names@.len(),
            forall|i: int|
                0 <= i < old(self).stack@.len() ==> (#[trigger] old(self).stack@[i])
                    < graph.names@.len(),
        ensures
            final(self).wf(),
            final(self).model@ == note(graph.names(), node as int, old(self).model@),
    {
        let ghost s = self.model@;
        let mut start: usize = 0;
        while start < self.stack.len() && self.stack[start] != node
            invariant
                start <= self.stack@.len(),
                ints(self.stack@) == s.stack,
                spot(s.stack, node as int, 0) == spot(s.stack, node as int, start as int),
            decreases self.stack@.len() - start,
        {
            assert(s.stack[start as int] == self.stack@[start as int]);
            start += 1;
        }
        if start == self.stack.len() {
            return;
        }
        assert(s.stack[start as int] == self.stack@[start as int]);
        let mut walk: Vec<usize> = Vec::new();
        let mut ids: Vec<String> = Vec::new();
        let mut i: usize = start;
        while i < self.stack.len()
            invariant
                start <= i <= self.stack@.len(),
                graph.wf(),
                forall|j: int|
                    0 <= j < self.stack@.len() ==> (#[trigger] self.stack@[j])
                        < graph.names@.len(),
                walk@.len() == i - start,
                ids@.len() == i - start,
                forall|j: int| 0 <= j < i - start ==> #[trigger] walk@[j] == self.stack@[start + j],
                forall|j: int|
                    0 <= j < i - start ==> (#[trigger] ids@[j])@ == graph.names@[self.stack@[start
                        + j] as int]@,
            decreases self.stack@.len() - i,
        {
            walk.push(self.stack[i]);
            ids.push(graph.names[self.stack[i]].clone());
            i += 1;
        }
        walk.push(node);
        ids.push(graph.names[node].clone());
        proof {
            assert(ints(walk@) =~= s.stack.skip(start as int).push(node as int)) by {
                assert forall|j: int| 0 <= j < walk@.len() - 1 implies ints(walk@)[j]
                    == s.stack.skip(start as int)[j] by {
                    assert(s.stack[start + j] == ints(self.stack@)[start + j]);
                }
            }
            assert(text::texts(ids@) =~= named(graph.names(), ints(walk@)));
        }
        let key = canonical_cycle_key(&ids);
        if !self.seen.contains_key(key.as_str()) {
            proof {
                let before = self.seen@;
                table::lemma_upsert(before, key@, ());
                let after = table::upsert(before, key@, ());
                let seen = s.seen.push(key@);
                assert forall|other: Seq<char>| #[trigger]
                    table::has_key(after, other) == seen.contains(other) by {
                    table::lemma_lookup_some(after, other);
                    table::lemma_lookup_some(before, other);
                    if s.seen.contains(other) {
                        let j = choose|j: int| 0 <= j < s.seen.len() && s.seen[j] == other;
                        assert(seen[j] == other);
                    }
                    if other == key@ {
                        assert(seen[s.seen.len() as int] == other);
                    }
                    if seen.contains(other) && other != key@ {
                        let j = choose|j: int| 0 <= j < seen.len() && seen[j] == other;
                        assert(s.seen[j] == other);
                    }
                    assert(table::has_key(before, other) == s.seen.contains(other));
                }
            }
            let ghost w = ints(walk@);
            self.seen.insert(key, ());
            self.cycles.push(walk);
            self.model = Ghost(note(graph.names(), node as int, s));
            assert(self.cycles@.len() == self.model@.cycles.len());
        }
    }

    /// Searches a node and all that it leads to.
    #[verifier::loop_isolation(false)]
    fn visit(&mut self, graph: &Graph, node: usize)
        requires
            old(self).wf(),
            graph.wf(),
            sound(graph.edges(), graph.names(), old(self).model@),
            node < graph.names@.len(),
            old(self).model@.marks[node as int] == Mark::Fresh,
            old(self).model@.stack.len() > 0 ==> edge(
                graph.edges(),
                old(self).model@.stack.last(),
                node as int,
            ),
        ensures
            final(self).wf(),
            final(self).model@ == visit(
                graph.edges(),
                graph.names(),
                node as int,
                old(self).model@,
            ),
        decreases fresh(old(self).model@.marks),
    {
        let ghost g = graph.edges();
        let ghost names = graph.names();
        let ghost s = self.model@;
        let ghost n = node as int;
        let ghost entered = Search {
            marks: s.marks.update(n, Mark::Open),
            stack: s.stack.push(n),
            ..s
        };
        proof {
            lemma_enter(g, names, n, s);
        }
        let ghost before = self.stack@;
        self.marks[node] = Mark::Open;
        self.stack.push(node);
        self.model = Ghost(entered);
        assert(ints(self.stack@) =~= ints(before).push(n));
        let ghost searched = visit_next(g, names, n, 0, entered);
        let count: usize = graph.next[node].len();
        assert(g[n].len() == count);
        let mut k: usize = 0;
        while k < count
            invariant
                k <= count,
                self.wf(),
                sound(g, names, self.model@),
                later(entered, self.model@),
                self.model@.cycles.len() == 0 ==> forall|j: int|
                    0 <= j < k ==> self.model@.marks[#[trigger] g[n][j]] == Mark::Done,
                searched == visit_next(g, names, n, k as int, self.model@),
            decreases count - k,
        {
            let to: usize = graph.next[node][k];
            assert(g[n][k as int] == to);
            assert(0 <= g[n][k as int] < g.len());
            assert(g[n].contains(to as int));
            let ghost now = self.model@;
            match self.marks[to] {
                Mark::Fresh => {
                    proof {
                        lemma_visit(g, names, to as int, now);
                    }
                    self.visit(graph, to);
                },
                Mark::Open => {
                    proof {
                        lemma_note(g, names, to as int, now);
                        assert forall|i: int| 0 <= i < self.stack@.len() implies (
                        #[trigger] self.stack@[i]) < graph.names@.len() by {
                            assert(now.stack[i] == ints(self.stack@)[i]);
                        }
                    }
                    self.note(graph, to);
                },
                Mark::Done => {},
            }
            proof {
                let t = self.model@;
                assert forall|j: int| t.cycles.len() == 0 && 0 <= j < k + 1 implies t.marks[#[trigger] g[n][j]]
                    == Mark::Done by {
                    assert(0 <= g[n][j] < g.len());
                    if j < k {
                        assert(now.marks[g[n][j]] == Mark::Done);
                    }
                }
                assert forall|v: int|
                    0 <= v < entered.marks.len() && entered.marks[v] == Mark::Done implies (
                #[trigger] t.marks[v]) == Mark::Done by {
                    assert(now.marks[v] == Mark::Done);
                }
            }
            k += 1;
        }
        proof {
            lemma_leave(g, names, n, self.model@);
        }
        let ghost done = self.model@;
        let ghost way = self.stack@;
        self.stack.pop();
        self.marks[node] = Mark::Done;
        self.model = Ghost(
            Search {
                marks: done.marks.update(n, Mark::Done),
                stack: done.stack.drop_last(),
                finished: done.finished.push(n),
                ..done
            },
        );
        assert(ints(self.stack@) =~= ints(way).drop_last());
    }
}

/// The cycles that a search in depth finds, as walks that come back to where they start.
pub fn find_cycles(graph: &Graph) -> (r: Vec<Vec<usize>>)
    requires
        graph.wf(),
    ensures
        r@.len() == full_search(graph.edges(), graph.names()).cycles.len(),
        forall|c: int|
            0 <= c < r@.len() ==> ints((#[trigger] r@[c])@) == full_search(
                graph.edges(),
                graph.names(),
            ).cycles[c],
{
    let n: usize = graph.names.len();
    let ghost g = graph.edges();
    let ghost names = graph.names();
    let mut marks: Vec<Mark> = Vec::new();
    let mut k: usize = 0;
    while k < n
        invariant
            k <= n,
            marks@.len() == k,
            forall|i: int| 0 <= i < k ==> #[trigger] marks@[i] == Mark::Fresh,
        decreases n - k,
    {
        marks.push(Mark::Fresh);
        k += 1;
    }
    let mut search = Searcher {
        marks,
        stack: Vec::new(),
        cycles: Vec::new(),
        seen: TextMap::new(),
        model: Ghost(no_search(n as nat)),
    };
    proof {
        assert(search.marks@ =~= search.model@.marks);
        assert(ints(search.stack@) =~= Seq::empty());
        lemma_no_search(g, names);
    }
    let ghost full = full_search(g, names);
    let mut i: usize = 0;
    while i < n
        invariant
            i <= n == g.len(),
            n == graph.names@.len(),
            graph.wf(),
            g == graph.edges(),
            names == graph.names(),
            search.wf(),
            sound(g, names, search.model@),
            search.model@.stack.len() == 0,
            full == visit_from(g, names, i as int, search.model@),
        decreases n - i,
    {
        if search.marks[i] == Mark::Fresh {
            proof {
                lemma_visit(g, names, i as int, search.model@);
            }
            search.visit(graph, i);
        }
        i += 1;
    }
    search.cycles
}

// ---------------------------------------------------------------------------
// Searching in breadth
// ---------------------------------------------------------------------------

/// A node has been found.
pub open spec fn is_found(found: Seq<(int, int)>, node: int) -> bool {
    exists|i: int| 0 <= i < found.len() && #[trigger] found[i].0 == node
}

/// The found nodes with those of `out` from the `k`th on behind them that are new; each with
/// the place of the node from which it was found.
pub open spec fn discover(out: Seq<int>, k: int, found: Seq<(int, int)>, from: int) -> Seq<
    (int, int),
>
    decreases out.len() - k,
{
    if k < 0 || k >= out.len() {
        found
    } else if is_found(found, out[k]) {
        discover(out, k + 1, found, from)
    } else {
        discover(out, k + 1, found.push((out[k], from)), from)
    }
}

/// The nodes found until the target is reached, and its place among them. The nodes are taken
/// in the order in which they were found.
pub open spec fn reach(g: Seq<Seq<int>>, found: Seq<(int, int)>, at: int, target: int) -> Option<
    (Seq<(int, int)>, int),
>
    decreases g.len() - at,
{
    if at < 0 || at >= found.len() || at >= g.len() {
        None
    } else if found[at].0 == target {
        Some((found, at))
    } else {
        reach(g, discover(g[found[at].0], 0, found, at), at + 1, target)
    }
}

/// The way to a found node.
pub open spec fn trace(found: Seq<(int, int)>, at: int) -> Seq<int>
    decreases at,
{
    if at <= 0 || found[at].1 >= at || found[at].1 < 0 {
        seq![found[at].0]
    } else {
        trace(found, found[at].1).push(found[at].0)
    }
}

/// The way from a node to another that is found first.
pub open spec fn first_way(g: Seq<Seq<int>>, start: int, target: int) -> Option<Seq<int>> {
    match reach(g, seq![(start, 0int)], 0, target) {
        Some((found, at)) => Some(trace(found, at)),
        None => None,
    }
}

/// What holds throughout a search in breadth that has taken the first `at` nodes.
#[verifier::opaque]
pub open spec fn spreads(g: Seq<Seq<int>>, start: int, found: Seq<(int, int)>, at: int) -> bool {
    &&& 0 <= at <= found.len()
    &&& found.len() > 0
    &&& found[0] == (start, 0int)
    &&& forall|i: int| 0 <= i < found.len() ==> 0 <= (#[trigger] found[i]).0 < g.len()
    &&& forall|i: int, j: int|
        0 <= i < j < found.len() ==> (#[trigger] found[i]).0 != (#[trigger] found[j]).0
    &&& forall|i: int| 1 <= i < found.len() ==> 0 <= (#[trigger] found[i]).1 < at
    &&& forall|i: int|
        1 <= i < found.len() ==> (#[trigger] found[i]).1 < i && edge(
            g,
            found[found[i].1].0,
            found[i].0,
        )
    &&& forall|i: int, j: int|
        1 <= i < j < found.len() ==> (#[trigger] found[i]).1 <= (#[trigger] found[j]).1
    &&& forall|i: int, v: int|
        0 <= i < at && #[trigger] edge(g, (#[trigger] found[i]).0, v) ==> found_by(found, v, i)
}

/// A node was found from a node no later than the `i`th.
pub open spec fn found_by(found: Seq<(int, int)>, node: int, i: int) -> bool {
    exists|q: int|
        0 <= q < found.len() && (#[trigger] found[q]).0 == node && (q == 0 || found[q].1 <= i)
}

/// What holds while the edges of the node at `at` are being followed, up to the `k`th.
#[verifier::opaque]
spec fn spreading(
    g: Seq<Seq<int>>,
    start: int,
    found: Seq<(int, int)>,
    at: int,
    k: int,
) -> bool {
    &&& 0 <= at < found.len()
    &&& found[0] == (start, 0int)
    &&& forall|i: int| 0 <= i < found.len() ==> 0 <= (#[trigger] found[i]).0 < g.len()
    &&& forall|i: int, j: int|
        0 <= i < j < found.len() ==> (#[trigger] found[i]).0 != (#[trigger] found[j]).0
    &&& forall|i: int| 1 <= i < found.len() ==> 0 <= (#[trigger] found[i]).1 <= at
    &&& forall|i: int|
        1 <= i < found.len() ==> (#[trigger] found[i]).1 < i && edge(
            g,
            found[found[i].1].0,
            found[i].0,
        )
    &&& forall|i: int, j: int|
        1 <= i < j < found.len() ==> (#[trigger] found[i]).1 <= (#[trigger] found[j]).1
    &&& forall|i: int, v: int|
        0 <= i < at && #[trigger] edge(g, (#[trigger] found[i]).0, v) ==> found_by(found, v, i)
    &&& forall|j: int| 0 <= j < k ==> found_by(found, #[trigger] g[found[at].0][j], at)
}

/// Following an edge to a node that was found changes nothing.
proof fn lemma_spreading_known(
    g: Seq<Seq<int>>,
    start: int,
    found: Seq<(int, int)>,
    at: int,
    k: int,
)
    requires
        is_graph(g),
        spreading(g, start, found, at, k),
        0 <= k < g[found[at].0].len(),
        is_found(found, g[found[at].0][k]),
    ensures
        spreading(g, start, found, at, k + 1),
{
    reveal(spreading);
    let v = g[found[at].0][k];
    let q = choose|q: int| 0 <= q < found.len() && #[trigger] found[q].0 == v;
    assert(q == 0 || found[q].1 <= at);
    assert(found_by(found, v, at));
}

proof fn lemma_found_by_push(found: Seq<(int, int)>, pair: (int, int), node: int, i: int)
    requires
        found_by(found, node, i),
    ensures
        found_by(found.push(pair), node, i),
{
    let q = choose|q: int|
        0 <= q < found.len() && (#[trigger] found[q]).0 == node && (q == 0 || found[q].1 <= i);
    assert(found.push(pair)[q] == found[q]);
}

/// Following an edge to a new node adds it.
proof fn lemma_spreading_new(
    g: Seq<Seq<int>>,
    start: int,
    found: Seq<(int, int)>,
    at: int,
    k: int,
)
    requires
        is_graph(g),
        spreading(g, start, found, at, k),
        0 <= k < g[found[at].0].len(),
        !is_found(found, g[found[at].0][k]),
    ensures
        spreading(g, start, found.push((g[found[at].0][k], at)), at, k + 1),
{
    reveal(spreading);
    let out = g[found[at].0];
    let v = out[k];
    assert(0 <= g[found[at].0][k] < g.len());
    let more = found.push((v, at));
    assert forall|i: int, w: int|
        0 <= i < at && #[trigger] edge(g, (#[trigger] more[i]).0, w) implies found_by(
        more,
        w,
        i,
    ) by {
        assert(more[i] == found[i]);
        lemma_found_by_push(found, (v, at), w, i);
    }
    assert forall|j: int| 0 <= j < k + 1 implies found_by(
        more,
        #[trigger] g[more[at].0][j],
        at,
    ) by {
        assert(more[at] == found[at]);
        if j < k {
            lemma_found_by_push(found, (v, at), g[found[at].0][j], at);
        } else {
            assert(more[found.len() as int] == (v, at));
        }
    }
    assert(out.contains(v));
    assert forall|i: int| 1 <= i < more.len() implies (#[trigger] more[i]).1 < i && edge(
        g,
        more[more[i].1].0,
        more[i].0,
    ) by {
        if i < found.len() {
            assert(more[i] == found[i]);
            assert(more[found[i].1] == found[found[i].1]);
        } else {
            assert(more[at] == found[at]);
        }
    }
}

/// When all edges have been followed, the node at `at` has been taken.
proof fn lemma_spreading_done(g: Seq<Seq<int>>, start: int, found: Seq<(int, int)>, at: int)
    requires
        spreading(g, start, found, at, g[found[at].0].len() as int),
    ensures
        spreads(g, start, found, at + 1),
{
    reveal(spreading);
    reveal(spreads);
    let out = g[found[at].0];
    assert forall|i: int, v: int|
        0 <= i < at + 1 && #[trigger] edge(g, (#[trigger] found[i]).0, v) implies found_by(
        found,
        v,
        i,
    ) by {
        if i == at {
            let j = choose|j: int| 0 <= j < out.len() && #[trigger] out[j] == v;
            assert(found_by(found, g[found[at].0][j], at));
        }
    }
}

proof fn lemma_discover(
    g: Seq<Seq<int>>,
    start: int,
    found: Seq<(int, int)>,
    at: int,
    k: int,
)
    requires
        is_graph(g),
        0 <= at < found.len(),
        spreading(g, start, found, at, k),
        0 <= k <= g[found[at].0].len(),
    ensures
        spreads(g, start, discover(g[found[at].0], k, found, at), at + 1),
        discover(g[found[at].0], k, found, at).len() >= found.len(),
        forall|i: int|
            0 <= i < found.len() ==> #[trigger] discover(g[found[at].0], k, found, at)[i]
                == found[i],
    decreases g[found[at].0].len() - k,
{
    let out = g[found[at].0];
    if k < out.len() {
        if is_found(found, out[k]) {
            lemma_spreading_known(g, start, found, at, k);
            lemma_discover(g, start, found, at, k + 1);
        } else {
            let more = found.push((out[k], at));
            lemma_spreading_new(g, start, found, at, k);
            assert(more[at] == found[at]);
            lemma_discover(g, start, more, at, k + 1);
            let all = discover(g[found[at].0], k, found, at);
            assert forall|i: int| 0 <= i < found.len() implies #[trigger] all[i] == found[i] by {
                assert(more[i] == found[i]);
                assert(discover(g[more[at].0], k + 1, more, at)[i] == more[i]);
            }
        }
    } else {
        lemma_spreading_done(g, start, found, at);
    }
}

proof fn lemma_take_next(g: Seq<Seq<int>>, start: int, found: Seq<(int, int)>, at: int)
    requires
        is_graph(g),
        spreads(g, start, found, at),
        at < found.len(),
    ensures
        spreads(g, start, discover(g[found[at].0], 0, found, at), at + 1),
        discover(g[found[at].0], 0, found, at).len() >= found.len(),
        forall|i: int|
            0 <= i < found.len() ==> #[trigger] discover(g[found[at].0], 0, found, at)[i]
                == found[i],
{
    assert(spreading(g, start, found, at, 0) && 0 <= at) by {
        reveal(spreads);
        reveal(spreading);
    }
    lemma_discover(g, start, found, at, 0);
}

/// No more nodes are found than there are.
proof fn lemma_found_bound(g: Seq<Seq<int>>, start: int, found: Seq<(int, int)>, at: int)
    requires
        spreads(g, start, found, at),
    ensures
        found.len() <= g.len(),
        0 <= at <= found.len(),
        at < found.len() ==> 0 <= found[at].0 < g.len(),
{
    reveal(spreads);
    let nodes = Seq::new(found.len(), |i: int| found[i].0);
    assert(nodes.no_duplicates()) by {
        assert forall|i: int, j: int| 0 <= i < nodes.len() && 0 <= j < nodes.len() && i
            != j implies nodes[i] != nodes[j] by {
            if i < j {
                assert(found[i].0 != found[j].0);
            } else {
                assert(found[j].0 != found[i].0);
            }
        }
    }
    nodes.unique_seq_to_set();
    let range = vstd::set_lib::set_int_range(0, g.len() as int);
    vstd::set_lib::lemma_int_range(0, g.len() as int);
    assert forall|v: int| nodes.to_set().contains(v) implies range.contains(v) by {
        let i = choose|i: int| 0 <= i < nodes.len() && nodes[i] == v;
        assert(0 <= found[i].0 < g.len());
    }
    vstd::set_lib::lemma_len_subset(nodes.to_set(), range);
}

/// How many steps a found node is away from the start.
spec fn depth(found: Seq<(int, int)>, at: int) -> nat
    decreases at,
{
    if at <= 0 || found[at].1 >= at || found[at].1 < 0 {
        0
    } else {
        depth(found, found[at].1) + 1
    }
}

proof fn lemma_trace(g: Seq<Seq<int>>, start: int, found: Seq<(int, int)>, at: int, i: int)
    requires
        spreads(g, start, found, at),
        0 <= i < found.len(),
    ensures
        is_walk(g, trace(found, i)),
        trace(found, i)[0] == start,
        trace(found, i).last() == found[i].0,
        trace(found, i).len() == depth(found, i) + 1,
    decreases i,
{
    reveal(spreads);
    if i > 0 {
        let p = found[i].1;
        lemma_trace(g, start, found, at, p);
        let front = trace(found, p);
        let w = trace(found, i);
        assert(w =~= front.push(found[i].0));
        assert forall|k: int| 0 <= k < w.len() implies 0 <= #[trigger] w[k] < g.len() by {
            if k < front.len() {
                assert(w[k] == front[k]);
            }
        }
        assert forall|k: int| 0 <= k < w.len() - 1 implies edge(g, #[trigger] w[k], w[k + 1]) by {
            assert(w[k] == front[k]);
            if k + 1 < front.len() {
                assert(w[k + 1] == front[k + 1]);
            } else {
                assert(front[k] == front.last());
            }
        }
    }
}

proof fn lemma_depth_grows(
    g: Seq<Seq<int>>,
    start: int,
    found: Seq<(int, int)>,
    at: int,
    i: int,
    j: int,
)
    requires
        spreads(g, start, found, at),
        0 <= i <= j < found.len(),
    ensures
        depth(found, i) <= depth(found, j),
    decreases j,
{
    reveal(spreads);
    if 0 < i < j {
        assert(found[i].1 <= found[j].1);
        lemma_depth_grows(g, start, found, at, found[i].1, found[j].1);
    }
}

/// The nodes of a walk are found no deeper than the walk goes, as long as their depth is below
/// that of the nodes not yet taken.
proof fn lemma_walk_is_found(
    g: Seq<Seq<int>>,
    start: int,
    found: Seq<(int, int)>,
    at: int,
    w: Seq<int>,
    n: int,
) -> (i: int)
    requires
        spreads(g, start, found, at),
        is_walk(g, w),
        w[0] == start,
        0 <= n < w.len(),
    ensures
        0 <= i < found.len(),
        depth(found, i) <= n,
        found[i].0 == w[n] || i >= at,
    decreases n,
{
    reveal(spreads);
    if n == 0 {
        0
    } else {
        let i = lemma_walk_is_found(g, start, found, at, w, n - 1);
        if i >= at {
            i
        } else {
            assert(edge(g, w[n - 1], w[n - 1 + 1]));
            assert(edge(g, found[i].0, w[n]));
            assert(found_by(found, w[n], i));
            let q = choose|q: int|
                0 <= q < found.len() && (#[trigger] found[q]).0 == w[n] && (q == 0 || found[q].1
                    <= i);
            if q > 0 {
                lemma_depth_grows(g, start, found, at, found[q].1, i);
            }
            q
        }
    }
}

/// When every found node has been taken, no way leads to one that was not found.
proof fn lemma_all_taken(g: Seq<Seq<int>>, start: int, found: Seq<(int, int)>, target: int)
    requires
        spreads(g, start, found, found.len() as int),
        forall|i: int| 0 <= i < found.len() ==> (#[trigger] found[i]).0 != target,
    ensures
        forall|w: Seq<int>| #[trigger] is_walk(g, w) && w[0] == start ==> w.last() != target,
{
    assert forall|w: Seq<int>| #[trigger] is_walk(g, w) && w[0] == start implies w.last()
        != target by {
        let i = lemma_walk_is_found(g, start, found, found.len() as int, w, w.len() - 1);
        assert(found[i].0 != target);
    }
}

proof fn lemma_reach(g: Seq<Seq<int>>, start: int, found: Seq<(int, int)>, at: int, target: int)
    requires
        is_graph(g),
        spreads(g, start, found, at),
        forall|i: int| 0 <= i < at ==> (#[trigger] found[i]).0 != target,
    ensures
        match reach(g, found, at, target) {
            Some((all, there)) => {
                &&& spreads(g, start, all, there)
                &&& there < all.len()
                &&& all[there].0 == target
                &&& forall|i: int| 0 <= i < there ==> (#[trigger] all[i]).0 != target
            },
            None => forall|w: Seq<int>|
                #[trigger] is_walk(g, w) && w[0] == start ==> w.last() != target,
        },
    decreases g.len() - at,
{
    lemma_found_bound(g, start, found, at);
    if at >= found.len() {
        lemma_all_taken(g, start, found, target);
    } else if found[at].0 != target {
        lemma_take_next(g, start, found, at);
        let more = discover(g[found[at].0], 0, found, at);
        assert forall|i: int| 0 <= i < at + 1 implies (#[trigger] more[i]).0 != target by {
            assert(more[i] == found[i]);
        }
        lemma_reach(g, start, more, at + 1, target);
    }
}

proof fn lemma_spreads_start(g: Seq<Seq<int>>, start: int)
    requires
        0 <= start < g.len(),
    ensures
        spreads(g, start, seq![(start, 0int)], 0),
{
    reveal(spreads);
}

/// The way that is found leads from the start to the target and is as short as any; there is
/// none if and only if no way leads there.
pub proof fn law_first_way_is_shortest(g: Seq<Seq<int>>, start: int, target: int)
    requires
        is_graph(g),
        0 <= start < g.len(),
    ensures
        match first_way(g, start, target) {
            Some(way) => {
                &&& is_walk(g, way)
                &&& way[0] == start
                &&& way.last() == target
                &&& forall|w: Seq<int>| #[trigger]
                    is_walk(g, w) && w[0] == start && w.last() == target ==> way.len() <= w.len()
            },
            None => forall|w: Seq<int>|
                #[trigger] is_walk(g, w) && w[0] == start ==> w.last() != target,
        },
{
    lemma_spreads_start(g, start);
    lemma_reach(g, start, seq![(start, 0int)], 0, target);
    if let Some((found, at)) = reach(g, seq![(start, 0int)], 0, target) {
        lemma_found_bound(g, start, found, at);
        lemma_trace(g, start, found, at, at);
        assert forall|w: Seq<int>| #[trigger]
            is_walk(g, w) && w[0] == start && w.last() == target implies trace(found, at).len()
            <= w.len() by {
            let i = lemma_walk_is_found(g, start, found, at, w, w.len() - 1);
            if i >= at {
                lemma_depth_grows(g, start, found, at, at, i);
            } else {
                assert(found[i].0 != target);
            }
        }
    }
}

/// Found nodes as mathematical integers.
pub open spec fn pairs(s: Seq<(usize, usize)>) -> Seq<(int, int)> {
    Seq::new(s.len(), |i: int| (s[i].0 as int, s[i].1 as int))
}

/// The way from a node to another that is found first in the search in breadth.
pub fn shortest_path(graph: &Graph, start: usize, target: usize) -> (r: Option<Vec<usize>>)
    requires
        graph.wf(),
        start < graph.names@.len(),
    ensures
        match r {
            Some(way) => first_way(graph.edges(), start as int, target as int) == Some(ints(way@)),
            None => first_way(graph.edges(), start as int, target as int) is None,
        },
{
    let n: usize = graph.names.len();
    let ghost g = graph.edges();
    let mut known: Vec<bool> = Vec::new();
    let mut k: usize = 0;
    while k < n
        invariant
            k <= n,
            known@.len() == k,
            forall|i: int| 0 <= i < k ==> !(#[trigger] known@[i]),
        decreases n - k,
    {
        known.push(false);
        k += 1;
    }
    known[start] = true;
    let mut found: Vec<(usize, usize)> = Vec::new();
    found.push((start, 0));
    let ghost first = seq![(start as int, 0int)];
    assert(pairs(found@) =~= first);
    let mut at: usize = 0;
    proof {
        lemma_spreads_start(g, start as int);
        assert forall|v: int| 0 <= v < n implies (#[trigger] known@[v]) == is_found(first, v) by {
            assert(first[0].0 == start);
        }
    }
    let ghost whole = reach(g, first, 0, target as int);
    while at < found.len()
        invariant
            at <= found@.len(),
            n == graph.names@.len() == g.len() == known@.len(),
            graph.wf(),
            g == graph.edges(),
            first == seq![(start as int, 0int)],
            whole == reach(g, first, 0, target as int),
            spreads(g, start as int, pairs(found@), at as int),
            forall|v: int|
                0 <= v < n ==> (#[trigger] known@[v]) == is_found(pairs(found@), v),
            whole == reach(g, pairs(found@), at as int, target as int),
        decreases n - at,
    {
        let ghost now = pairs(found@);
        proof {
            lemma_found_bound(g, start as int, now, at as int);
            lemma_take_next(g, start as int, now, at as int);
        }
        let node: usize = found[at].0;
        assert(now[at as int].0 == node);
        if node == target {
            return Some(trace_back(&found, at));
        }
        let ghost out = g[node as int];
        let ghost after = discover(out, 0, now, at as int);
        let count: usize = graph.next[node].len();
        let mut i: usize = 0;
        while i < count
            invariant
                i <= count == out.len(),
                at < found@.len(),
                n == graph.names@.len() == g.len() == known@.len(),
                node < n,
                graph.wf(),
                g == graph.edges(),
                out == g[node as int],
                count == graph.next@[node as int]@.len(),
                after == discover(out, i as int, pairs(found@), at as int),
                forall|v: int|
                    0 <= v < n ==> (#[trigger] known@[v]) == is_found(pairs(found@), v),
            decreases count - i,
        {
            let to: usize = graph.next[node][i];
            assert(g[node as int][i as int] == to);
            assert(0 <= g[node as int][i as int] < g.len());
            if !known[to] {
                let ghost before = found@;
                let ghost was = known@;
                known[to] = true;
                found.push((to, at));
                proof {
                    let more = pairs(before).push((to as int, at as int));
                    assert(pairs(found@) =~= more);
                    assert forall|v: int| 0 <= v < n implies (#[trigger] known@[v]) == is_found(
                        more,
                        v,
                    ) by {
                        if v == to {
                            assert(more[before.len() as int].0 == to);
                        } else {
                            assert(was[v] == is_found(pairs(before), v));
                            if is_found(pairs(before), v) {
                                let q = choose|q: int|
                                    0 <= q < pairs(before).len() && #[trigger] pairs(before)[q].0
                                        == v;
                                assert(more[q].0 == v);
                            }
                            if is_found(more, v) {
                                let q = choose|q: int|
                                    0 <= q < more.len() && #[trigger] more[q].0 == v;
                                assert(pairs(before)[q].0 == v);
                            }
                        }
                    }
                }
            }
            i += 1;
        }
        at += 1;
    }
    None
}

/// The way to a found node.
fn trace_back(found: &Vec<(usize, usize)>, at: usize) -> (r: Vec<usize>)
    requires
        at < found@.len(),
    ensures
        ints(r@) == trace(pairs(found@), at as int),
    decreases at,
{
    let from: usize = found[at].1;
    assert(pairs(found@)[at as int] == (found@[at as int].0 as int, from as int));
    let mut r: Vec<usize> = if at == 0 || from >= at {
        Vec::new()
    } else {
        trace_back(found, from)
    };
    let ghost before = r@;
    r.push(found[at].0);
    assert(ints(r@) =~= ints(before).push(found@[at as int].0 as int));
    assert(at == 0 || from >= at ==> ints(r@) =~= seq![found@[at as int].0 as int]);
    r
}

} // verus!
