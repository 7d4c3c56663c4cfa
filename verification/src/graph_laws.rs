//! Which cycles of a graph a search tells of, and in which order.

use crate::book_laws;
use crate::diagnostics;
use crate::graph;
use crate::graph::Mark;
use crate::graph::Search;
use crate::order;
use crate::quest;
use crate::text;
use vstd::prelude::*;

verus! {

/// A cycle that closes with the edge between two nodes has a key that was seen.
pub open spec fn told(
    g: Seq<Seq<int>>,
    names: Seq<Seq<char>>,
    seen: Seq<Seq<char>>,
    a: int,
    b: int,
) -> bool {
    exists|c: Seq<int>| #[trigger]
        graph::is_cycle(g, c) && graph::passes_once(c) && c[c.len() - 2] == a && c.last() == b
            && seen.contains(graph::cycle_key(graph::named(names, c)))
}

/// Each edge of a finished node leads to a node that was finished before it, or closes a cycle that
/// is told.
spec fn settled(g: Seq<Seq<int>>, names: Seq<Seq<char>>, s: Search) -> bool {
    forall|p: int, k: int|
        0 <= p < s.finished.len() && 0 <= k < g[s.finished[p]].len() ==> graph::done_before(
            s.finished,
            #[trigger] g[s.finished[p]][k],
            p,
        ) || told(g, names, s.seen, s.finished[p], g[s.finished[p]][k])
}

spec fn grown(s: Search, t: Search) -> bool {
    forall|key: Seq<char>| s.seen.contains(key) ==> #[trigger] t.seen.contains(key)
}

/// What is to be seen of the first edges of a node before it is left.
spec fn looked_at(g: Seq<Seq<int>>, names: Seq<Seq<char>>, s: Search, node: int, n: int) -> bool {
    forall|j: int|
        0 <= j < n ==> s.marks[#[trigger] g[node][j]] == Mark::Done || told(
            g,
            names,
            s.seen,
            node,
            g[node][j],
        )
}

proof fn lemma_told_stays(
    g: Seq<Seq<int>>,
    names: Seq<Seq<char>>,
    s: Search,
    t: Search,
    a: int,
    b: int,
)
    requires
        grown(s, t),
        told(g, names, s.seen, a, b),
    ensures
        told(g, names, t.seen, a, b),
{
    let c = choose|c: Seq<int>| #[trigger]
        graph::is_cycle(g, c) && graph::passes_once(c) && c[c.len() - 2] == a && c.last() == b
            && s.seen.contains(graph::cycle_key(graph::named(names, c)));
    assert(t.seen.contains(graph::cycle_key(graph::named(names, c))));
    assert(graph::is_cycle(g, c));
}

proof fn lemma_note_tells(g: Seq<Seq<int>>, names: Seq<Seq<char>>, node: int, s: Search)
    requires
        graph::is_graph(g),
        graph::sound(g, names, s),
        settled(g, names, s),
        s.stack.len() > 0,
        0 <= node < g.len(),
        s.marks[node] == Mark::Open,
        graph::edge(g, s.stack.last(), node),
    ensures
        settled(g, names, graph::note(names, node, s)),
        grown(s, graph::note(names, node, s)),
        told(g, names, graph::note(names, node, s).seen, s.stack.last(), node),
{
    graph::lemma_spot(s.stack, node, 0);
    assert(graph::holds(s.stack, node));
    let start = graph::spot(s.stack, node, 0)->Some_0;
    let walk = s.stack.skip(start).push(node);
    let n = s.stack.len() - start;
    assert forall|i: int| 0 <= i < walk.len() implies 0 <= #[trigger] walk[i] < g.len() by {
        if i < n {
            assert(walk[i] == s.stack[start + i]);
        }
    }
    assert forall|i: int| 0 <= i < walk.len() - 1 implies graph::edge(
        g,
        #[trigger] walk[i],
        walk[i + 1],
    ) by {
        assert(walk[i] == s.stack[start + i]);
        if i + 1 < n {
            assert(walk[i + 1] == s.stack[start + i + 1]);
        } else {
            assert(walk[i] == s.stack.last());
        }
    }
    assert(walk[0] == node);
    assert forall|i: int, j: int| 0 <= i < j < walk.len() - 1 implies #[trigger] walk[i]
        != #[trigger] walk[j] by {
        assert(walk[i] == s.stack[start + i] && walk[j] == s.stack[start + j]);
    }
    assert(graph::is_cycle(g, walk));
    assert(walk[walk.len() - 2] == s.stack.last());
    let key = graph::cycle_key(graph::named(names, walk));
    let t = graph::note(names, node, s);
    assert forall|other: Seq<char>| s.seen.contains(other) implies #[trigger] t.seen.contains(
        other,
    ) by {
        let i = choose|i: int| 0 <= i < s.seen.len() && s.seen[i] == other;
        assert(t.seen[i] == other);
    }
    if !s.seen.contains(key) {
        assert(t.seen[s.seen.len() as int] == key);
    }
    assert(t.seen.contains(key));
    lemma_settled_stays(g, names, s, t);
}

proof fn lemma_settled_stays(g: Seq<Seq<int>>, names: Seq<Seq<char>>, s: Search, t: Search)
    requires
        settled(g, names, s),
        grown(s, t),
        t.finished == s.finished,
    ensures
        settled(g, names, t),
{
    assert forall|p: int, k: int|
        0 <= p < t.finished.len() && 0 <= k < g[t.finished[p]].len() implies graph::done_before(
        t.finished,
        #[trigger] g[t.finished[p]][k],
        p,
    ) || told(g, names, t.seen, t.finished[p], g[t.finished[p]][k]) by {
        let to = g[s.finished[p]][k];
        if !graph::done_before(s.finished, to, p) {
            lemma_told_stays(g, names, s, t, s.finished[p], to);
        }
    }
}

proof fn lemma_leaving_settles(g: Seq<Seq<int>>, names: Seq<Seq<char>>, node: int, s: Search)
    requires
        graph::is_graph(g),
        graph::sound(g, names, s),
        settled(g, names, s),
        0 <= node < g.len(),
        looked_at(g, names, s, node, g[node].len() as int),
    ensures
        settled(
            g,
            names,
            Search {
                marks: s.marks.update(node, Mark::Done),
                stack: s.stack.drop_last(),
                finished: s.finished.push(node),
                ..s
            },
        ),
{
    let t = Search {
        marks: s.marks.update(node, Mark::Done),
        stack: s.stack.drop_last(),
        finished: s.finished.push(node),
        ..s
    };
    assert forall|p: int, k: int|
        0 <= p < t.finished.len() && 0 <= k < g[t.finished[p]].len() implies graph::done_before(
        t.finished,
        #[trigger] g[t.finished[p]][k],
        p,
    ) || told(g, names, t.seen, t.finished[p], g[t.finished[p]][k]) by {
        let to = g[t.finished[p]][k];
        assert(0 <= to < g.len());
        if p < s.finished.len() {
            assert(t.finished[p] == s.finished[p]);
            assert(graph::done_before(s.finished, g[s.finished[p]][k], p) || told(
                g,
                names,
                s.seen,
                s.finished[p],
                g[s.finished[p]][k],
            ));
            if graph::done_before(s.finished, to, p) {
                let q = choose|q: int| 0 <= q < p && #[trigger] s.finished[q] == to;
                assert(t.finished[q] == to);
            }
        } else {
            assert(g[node][k] == to);
            if s.marks[to] == Mark::Done {
                assert(graph::holds(s.finished, to));
                let q = choose|q: int| 0 <= q < s.finished.len() && #[trigger] s.finished[q] == to;
                assert(t.finished[q] == to);
            }
        }
    }
}

proof fn lemma_visit_settles(g: Seq<Seq<int>>, names: Seq<Seq<char>>, node: int, s: Search)
    requires
        graph::is_graph(g),
        graph::sound(g, names, s),
        settled(g, names, s),
        0 <= node < g.len(),
        s.marks[node] == Mark::Fresh,
        s.stack.len() > 0 ==> graph::edge(g, s.stack.last(), node),
    ensures
        settled(g, names, graph::visit(g, names, node, s)),
        grown(s, graph::visit(g, names, node, s)),
    decreases graph::fresh(s.marks), 0int, 0int,
{
    graph::lemma_enter(g, names, node, s);
    let entered = Search {
        marks: s.marks.update(node, Mark::Open),
        stack: s.stack.push(node),
        ..s
    };
    lemma_settled_stays(g, names, s, entered);
    graph::lemma_visit_next(g, names, node, 0, entered);
    lemma_visit_next_settles(g, names, node, 0, entered);
    let searched = graph::visit_next(g, names, node, 0, entered);
    lemma_leaving_settles(g, names, node, searched);
}

proof fn lemma_visit_next_settles(
    g: Seq<Seq<int>>,
    names: Seq<Seq<char>>,
    node: int,
    k: int,
    s: Search,
)
    requires
        graph::is_graph(g),
        graph::sound(g, names, s),
        settled(g, names, s),
        0 <= node < g.len(),
        0 <= k <= g[node].len(),
        s.stack.len() > 0,
        s.stack.last() == node,
        looked_at(g, names, s, node, k),
        s.cycles.len() == 0 ==> forall|j: int|
            0 <= j < k ==> s.marks[#[trigger] g[node][j]] == Mark::Done,
    ensures
        ({
            let t = graph::visit_next(g, names, node, k, s);
            &&& settled(g, names, t)
            &&& grown(s, t)
            &&& looked_at(g, names, t, node, g[node].len() as int)
        }),
    decreases graph::fresh(s.marks), 1int, g[node].len() - k,
{
    if k < g[node].len() {
        let to = g[node][k];
        assert(0 <= g[node][k] < g.len());
        assert(g[node].contains(to));
        let t = match s.marks[to] {
            Mark::Fresh => graph::visit(g, names, to, s),
            Mark::Open => graph::note(names, to, s),
            Mark::Done => s,
        };
        match s.marks[to] {
            Mark::Fresh => {
                graph::lemma_visit(g, names, to, s);
                lemma_visit_settles(g, names, to, s);
            },
            Mark::Open => {
                graph::lemma_note(g, names, to, s);
                lemma_note_tells(g, names, to, s);
            },
            Mark::Done => {},
        }
        assert forall|j: int| 0 <= j < k + 1 implies t.marks[#[trigger] g[node][j]] == Mark::Done
            || told(g, names, t.seen, node, g[node][j]) by {
            assert(0 <= g[node][j] < g.len());
            if j < k {
                if s.marks[g[node][j]] != Mark::Done {
                    lemma_told_stays(g, names, s, t, node, g[node][j]);
                } else {
                    assert(t.marks[g[node][j]] == Mark::Done);
                }
            }
        }
        assert forall|j: int| t.cycles.len() == 0 && 0 <= j < k + 1 implies t.marks[#[trigger] g[node][j]]
            == Mark::Done by {
            assert(0 <= g[node][j] < g.len());
            if j < k {
                assert(s.marks[g[node][j]] == Mark::Done);
            }
        }
        lemma_visit_next_settles(g, names, node, k + 1, t);
        let u = graph::visit_next(g, names, node, k + 1, t);
        assert forall|key: Seq<char>| s.seen.contains(key) implies #[trigger] u.seen.contains(
            key,
        ) by {
            assert(t.seen.contains(key));
        }
    }
}

proof fn lemma_visit_from_settles(g: Seq<Seq<int>>, names: Seq<Seq<char>>, i: int, s: Search)
    requires
        graph::is_graph(g),
        graph::sound(g, names, s),
        settled(g, names, s),
        s.stack.len() == 0,
        0 <= i <= g.len(),
        forall|v: int| 0 <= v < i ==> (#[trigger] s.marks[v]) == Mark::Done,
    ensures
        settled(g, names, graph::visit_from(g, names, i, s)),
    decreases g.len() - i,
{
    if i < g.len() {
        if s.marks[i] == Mark::Fresh {
            graph::lemma_visit(g, names, i, s);
            lemma_visit_settles(g, names, i, s);
            lemma_visit_from_settles(g, names, i + 1, graph::visit(g, names, i, s));
        } else {
            assert(!graph::holds(s.stack, i));
            assert(s.marks[i] == Mark::Done);
            lemma_visit_from_settles(g, names, i + 1, s);
        }
    }
}

/// Along the edges that close no told cycle the finishing time falls.
proof fn lemma_falls_or_told(
    g: Seq<Seq<int>>,
    names: Seq<Seq<char>>,
    s: Search,
    w: Seq<int>,
    n: int,
) -> (r: (int, int))
    requires
        graph::is_walk(g, w),
        graph::distinct(s.finished),
        settled(g, names, s),
        forall|v: int| 0 <= v < g.len() ==> graph::holds(s.finished, v),
        0 <= n < w.len(),
    ensures
        0 <= r.1 < n ==> told(g, names, s.seen, w[r.1], w[r.1 + 1]),
        !(0 <= r.1 < n) ==> 0 <= r.0 < s.finished.len() && s.finished[r.0] == w[n] && forall|p: int|
            0 <= p < s.finished.len() && #[trigger] s.finished[p] == w[0] ==> r.0 <= p - n,
    decreases n,
{
    if n == 0 {
        assert(0 <= w[0] < g.len());
        assert(graph::holds(s.finished, w[0]));
        let at = choose|i: int| 0 <= i < s.finished.len() && #[trigger] s.finished[i] == w[0];
        (at, -1)
    } else {
        let before = lemma_falls_or_told(g, names, s, w, n - 1);
        if 0 <= before.1 < n - 1 {
            before
        } else {
            assert(graph::edge(g, w[n - 1], w[n - 1 + 1]));
            let out = g[w[n - 1]];
            let k = choose|k: int| 0 <= k < out.len() && #[trigger] out[k] == w[n];
            assert(g[s.finished[before.0]][k] == w[n]);
            if graph::done_before(s.finished, g[s.finished[before.0]][k], before.0) {
                let at = choose|q: int| 0 <= q < before.0 && #[trigger] s.finished[q] == w[n];
                (at, -1)
            } else {
                (before.0, n - 1)
            }
        }
    }
}

/// No cycle goes untold: each one has an edge that closes a cycle without a node twice, and that
/// cycle is among those that the search gives, up to the node with which it begins.
pub proof fn law_no_cycle_goes_untold(
    g: Seq<Seq<int>>,
    names: Seq<Seq<char>>,
    w: Seq<int>,
) -> (r: (int, Seq<int>, int))
    requires
        graph::is_graph(g),
        graph::is_cycle(g, w),
    ensures
        0 <= r.0 < w.len() - 1,
        graph::is_cycle(g, r.1),
        graph::passes_once(r.1),
        r.1[r.1.len() - 2] == w[r.0],
        r.1.last() == w[r.0 + 1],
        0 <= r.2 < graph::full_search(g, names).cycles.len(),
        graph::cycle_key(graph::named(names, graph::full_search(g, names).cycles[r.2]))
            == graph::cycle_key(graph::named(names, r.1)),
{
    graph::lemma_no_search(g, names);
    let none = graph::no_search(g.len());
    graph::lemma_visit_from(g, names, 0, none);
    lemma_visit_from_settles(g, names, 0, none);
    let s = graph::full_search(g, names);
    assert forall|v: int| 0 <= v < g.len() implies graph::holds(s.finished, v) by {
        assert(s.marks[v] == Mark::Done);
    }
    let n = w.len() - 1;
    let (at, i) = lemma_falls_or_told(g, names, s, w, n);
    if !(0 <= i < n) {
        assert(s.finished[at] == w[0]);
    }
    let c = choose|c: Seq<int>| #[trigger]
        graph::is_cycle(g, c) && graph::passes_once(c) && c[c.len() - 2] == w[i] && c.last() == w[i
            + 1] && s.seen.contains(graph::cycle_key(graph::named(names, c)));
    let key = graph::cycle_key(graph::named(names, c));
    let k = choose|k: int| 0 <= k < s.seen.len() && s.seen[k] == key;
    assert(s.seen[k] == graph::cycle_key(graph::named(names, s.cycles[k])));
    (i, c, k)
}

/// No cycle of dependencies goes untold: each one has a dependency that closes a cycle without a
/// quest twice, and that cycle is reported, up to the quest with which it begins.
pub proof fn law_each_cycle_of_dependencies_is_told(
    quests: Seq<quest::QuestModel>,
    ids: Seq<Seq<char>>,
) -> (r: (int, Seq<Seq<char>>, int))
    requires
        diagnostics::is_dependency_cycle(diagnostics::dependency_table(quests), ids),
    ensures
        0 <= r.0 < ids.len() - 1,
        diagnostics::is_dependency_cycle(diagnostics::dependency_table(quests), r.1),
        graph::passes_once(r.1),
        r.1[r.1.len() - 2] == ids[r.0],
        r.1.last() == ids[r.0 + 1],
        0 <= r.2 < diagnostics::sorted_cycles(diagnostics::dependency_table(quests)).len(),
        graph::cycle_key(
            diagnostics::sorted_cycles(diagnostics::dependency_table(quests))[r.2],
        ) == graph::cycle_key(r.1),
{
    broadcast use vstd::seq_lib::group_to_multiset_ensures;

    let s = diagnostics::dependency_table(quests);
    let g = diagnostics::dependency_edges(s);
    let names = diagnostics::keys(s);
    diagnostics::lemma_table_ordered(quests);
    diagnostics::lemma_edges_are_graph(s);
    let w = diagnostics::lemma_chain_is_walk(s, ids);
    assert(diagnostics::key_place(s, ids[0]) == Some(w[0]));
    assert(diagnostics::key_place(s, ids[ids.len() - 1]) == Some(w[ids.len() - 1]));
    let (i, c, k) = law_no_cycle_goes_untold(g, names, w);
    let closing = graph::named(names, c);
    diagnostics::lemma_walk_is_chain(s, c);
    diagnostics::lemma_names_pass_once(s, c);
    assert(closing[closing.len() - 2] == graph::named(names, w)[i]);
    assert(closing.last() == graph::named(names, w)[i + 1]);
    diagnostics::law_reported_cycles(quests);
    let found = diagnostics::found_cycles(s);
    let sorted = diagnostics::sorted_cycles(s);
    assert(found[k] == graph::named(names, graph::full_search(g, names).cycles[k]));
    assert(found.contains(found[k]));
    assert(sorted.to_multiset().count(found[k]) > 0);
    assert(sorted.contains(found[k]));
    let at = choose|at: int| 0 <= at < sorted.len() && sorted[at] == found[k];
    (i, closing, at)
}

// ---------------------------------------------------------------------------
// Order
// ---------------------------------------------------------------------------

proof fn lemma_two_lists(a: Seq<Seq<char>>, b: Seq<Seq<char>>)
    ensures
        diagnostics::list_precedes(a, b) ==> !diagnostics::list_precedes(b, a),
    decreases a.len(),
{
    if a.len() > 0 && b.len() > 0 {
        book_laws::lemma_two_texts(a[0], b[0]);
        lemma_two_lists(a.skip(1), b.skip(1));
    }
}

proof fn lemma_three_lists(a: Seq<Seq<char>>, b: Seq<Seq<char>>, c: Seq<Seq<char>>)
    ensures
        !diagnostics::list_precedes(b, a) && !diagnostics::list_precedes(c, b)
            ==> !diagnostics::list_precedes(c, a),
    decreases a.len(),
{
    if a.len() > 0 && b.len() > 0 && c.len() > 0 {
        book_laws::lemma_three_texts(a[0], b[0], c[0]);
        lemma_three_lists(a.skip(1), b.skip(1), c.skip(1));
    }
}

proof fn lemma_first_difference(a: Seq<Seq<char>>, b: Seq<Seq<char>>, k: int)
    requires
        0 <= k < a.len(),
        k < b.len(),
        forall|m: int| 0 <= m < k ==> #[trigger] a[m] == b[m],
        text::precedes(b[k], a[k]),
    ensures
        diagnostics::list_precedes(b, a),
    decreases k,
{
    book_laws::lemma_two_texts(b[k], a[k]);
    if k > 0 {
        assert(a[0] == b[0]);
        assert forall|m: int| 0 <= m < k - 1 implies #[trigger] a.skip(1)[m] == b.skip(1)[m] by {
            assert(a[m + 1] == b[m + 1]);
        }
        lemma_first_difference(a.skip(1), b.skip(1), k - 1);
    }
}

/// Short cycles are reported before long ones, and those of one length in the order of the first
/// ids in which they differ.
pub proof fn law_cycles_are_in_order(quests: Seq<quest::QuestModel>, i: int, j: int, k: int)
    requires
        0 <= i < j < diagnostics::sorted_cycles(diagnostics::dependency_table(quests)).len(),
    ensures
        ({
            let all = diagnostics::sorted_cycles(diagnostics::dependency_table(quests));
            &&& all[i].len() <= all[j].len()
            &&& all[i].len() == all[j].len() && 0 <= k < all[i].len() && (forall|m: int|
                0 <= m < k ==> #[trigger] all[i][m] == all[j][m]) ==> !text::precedes(
                all[j][k],
                all[i][k],
            )
        }),
{
    let s = diagnostics::dependency_table(quests);
    let before = order::ranking::<diagnostics::DependencyCycle>();
    let all = diagnostics::sorted_cycles(s);
    diagnostics::law_reported_cycles(quests);
    assert(order::is_ranking(before)) by {
        assert forall|a: Seq<Seq<char>>, b: Seq<Seq<char>>| #[trigger]
            before(a, b) implies !before(b, a) by {
            lemma_two_lists(a, b);
        }
        assert forall|a: Seq<Seq<char>>, b: Seq<Seq<char>>, c: Seq<Seq<char>>|
            !(#[trigger] before(b, a)) && !(#[trigger] before(c, b)) implies !before(c, a) by {
            lemma_three_lists(a, b, c);
        }
    }
    order::lemma_sorted_in_order(diagnostics::found_cycles(s), before);
    assert(!before(all[j], all[i]));
    assert(diagnostics::is_dependency_cycle(s, all[i]));
    assert(diagnostics::is_dependency_cycle(s, all[j]));
    if all[i].len() == all[j].len() && 0 <= k < all[i].len() && (forall|m: int|
        0 <= m < k ==> #[trigger] all[i][m] == all[j][m]) && text::precedes(all[j][k], all[i][k]) {
        lemma_first_difference(all[i], all[j], k);
    }
}

} // verus!
