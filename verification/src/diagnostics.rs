//! What can be wrong with the dependencies of a quest book.

use crate::editor;
use crate::editor::EditableBook;
use crate::graph;
use crate::graph::{find_cycles, shortest_path, Graph};
use crate::order;
use crate::order::Ranked;
use crate::quest;
use crate::table;
use crate::table::TextMap;
use crate::text;
use vstd::prelude::*;

verus! {

// ---------------------------------------------------------------------------
// Cycles
// ---------------------------------------------------------------------------

/// Quests that depend on each other in a circle; the first one stands again at the end.
#[derive(Debug, Clone, PartialEq, Eq)]
pub struct DependencyCycle {
    pub quest_ids: Vec<String>,
}

impl View for DependencyCycle {
    type V = Seq<Seq<char>>;

    open spec fn view(&self) -> Seq<Seq<char>> {
        text::texts(self.quest_ids@)
    }
}

/// The number of edges of a cycle.
pub open spec fn cycle_length(ids: Seq<Seq<char>>) -> nat {
    if ids.len() == 0 {
        0
    } else {
        (ids.len() - 1) as nat
    }
}

impl DependencyCycle {
    /// The number of edges.
    pub fn length(&self) -> (r: usize)
        ensures
            r == cycle_length(self@),
    {
        if self.quest_ids.len() == 0 {
            0
        } else {
            self.quest_ids.len() - 1
        }
    }

    /// The edge to take away: the one that closes the cycle.
    pub fn suggested_edge(&self) -> (r: Option<(&str, &str)>)
        ensures
            match r {
                Some((from, to)) => self@.len() >= 2 && from@ == self@[self@.len() - 2] && to@
                    == self@[self@.len() - 1],
                None => self@.len() < 2,
            },
    {
        let n: usize = self.quest_ids.len();
        if n < 2 {
            None
        } else {
            Some((self.quest_ids[n - 2].as_str(), self.quest_ids[n - 1].as_str()))
        }
    }
}

/// The order of lists of texts: by their first texts that differ.
pub open spec fn list_precedes(a: Seq<Seq<char>>, b: Seq<Seq<char>>) -> bool
    decreases a.len(),
{
    if b.len() == 0 {
        false
    } else if a.len() == 0 {
        true
    } else if a[0] == b[0] {
        list_precedes(a.skip(1), b.skip(1))
    } else {
        text::precedes(a[0], b[0])
    }
}

fn is_list_before(a: &Vec<String>, b: &Vec<String>) -> (r: bool)
    ensures
        r == list_precedes(text::texts(a@), text::texts(b@)),
{
    let ghost x = text::texts(a@);
    let ghost y = text::texts(b@);
    let mut i: usize = 0;
    assert(x.skip(0) =~= x && y.skip(0) =~= y);
    while i < a.len() && i < b.len()
        invariant
            x == text::texts(a@),
            y == text::texts(b@),
            i <= x.len(),
            i <= y.len(),
            list_precedes(x, y) == list_precedes(x.skip(i as int), y.skip(i as int)),
        decreases x.len() - i,
    {
        assert(x.skip(i as int)[0] == a@[i as int]@);
        assert(y.skip(i as int)[0] == b@[i as int]@);
        if !text::same(a[i].as_str(), b[i].as_str()) {
            return text::is_before(a[i].as_str(), b[i].as_str());
        }
        assert(x.skip(i as int).skip(1) =~= x.skip(i + 1));
        assert(y.skip(i as int).skip(1) =~= y.skip(i + 1));
        i += 1;
    }
    i < b.len()
}

impl Ranked for DependencyCycle {
    open spec fn goes_before(a: Seq<Seq<char>>, b: Seq<Seq<char>>) -> bool {
        cycle_length(a) < cycle_length(b) || (cycle_length(a) == cycle_length(b)
            && list_precedes(a, b))
    }

    fn is_ranked_before(&self, other: &Self) -> (r: bool) {
        self.length() < other.length() || (self.length() == other.length() && is_list_before(
            &self.quest_ids,
            &other.quest_ids,
        ))
    }
}

// ---------------------------------------------------------------------------
// The graph of a book
// ---------------------------------------------------------------------------

/// All quests of the chapters, in their order.
pub open spec fn quests_of(chapters: Seq<quest::ChapterModel>) -> Seq<quest::QuestModel>
    decreases chapters.len(),
{
    if chapters.len() == 0 {
        Seq::empty()
    } else {
        quests_of(chapters.drop_last()) + chapters.last().quests
    }
}

/// The dependencies of each quest, under its id. Of two quests with one id the later counts.
pub open spec fn dependency_table(quests: Seq<quest::QuestModel>) -> Seq<
    (Seq<char>, Seq<Seq<char>>),
>
    decreases quests.len(),
{
    if quests.len() == 0 {
        Seq::empty()
    } else {
        table::upsert(
            dependency_table(quests.drop_last()),
            quests.last().id,
            quests.last().dependencies,
        )
    }
}

/// The place of a key among the entries.
pub open spec fn key_place<V>(s: Seq<(Seq<char>, V)>, key: Seq<char>) -> Option<int>
    decreases s.len(),
{
    if s.len() == 0 {
        None
    } else if s[0].0 == key {
        Some(0)
    } else {
        match key_place(s.skip(1), key) {
            Some(i) => Some(i + 1),
            None => None,
        }
    }
}

/// The nodes of the dependencies that name a quest.
pub open spec fn known_nodes<V>(s: Seq<(Seq<char>, V)>, dependencies: Seq<Seq<char>>) -> Seq<int>
    decreases dependencies.len(),
{
    if dependencies.len() == 0 {
        Seq::empty()
    } else {
        let front = known_nodes(s, dependencies.drop_last());
        match key_place(s, dependencies.last()) {
            Some(i) => front.push(i),
            None => front,
        }
    }
}

/// The edges of the graph of dependencies.
pub open spec fn dependency_edges(s: Seq<(Seq<char>, Seq<Seq<char>>)>) -> Seq<Seq<int>> {
    Seq::new(s.len(), |i: int| known_nodes(s, s[i].1))
}

/// The ids of the quests in the graph.
pub open spec fn keys<V>(s: Seq<(Seq<char>, V)>) -> Seq<Seq<char>> {
    Seq::new(s.len(), |i: int| s[i].0)
}

/// The dependencies of the quests of a book.
pub open spec fn book_table(book: editor::BookModel) -> Seq<(Seq<char>, Seq<Seq<char>>)> {
    dependency_table(quests_of(book.chapters))
}

pub proof fn lemma_table_ordered(quests: Seq<quest::QuestModel>)
    ensures
        table::ordered(dependency_table(quests)),
    decreases quests.len(),
{
    if quests.len() > 0 {
        lemma_table_ordered(quests.drop_last());
        table::lemma_upsert(
            dependency_table(quests.drop_last()),
            quests.last().id,
            quests.last().dependencies,
        );
    }
}

pub proof fn lemma_key_place<V>(s: Seq<(Seq<char>, V)>, key: Seq<char>)
    ensures
        match key_place(s, key) {
            Some(i) => 0 <= i < s.len() && s[i].0 == key,
            None => !table::has_key(s, key),
        },
    decreases s.len(),
{
    if s.len() > 0 && s[0].0 != key {
        lemma_key_place(s.skip(1), key);
        if let Some(i) = key_place(s.skip(1), key) {
            assert(s.skip(1)[i] == s[i + 1]);
        } else if table::has_key(s, key) {
            let i = choose|i: int| 0 <= i < s.len() && #[trigger] s[i].0 == key;
            assert(s.skip(1)[i - 1].0 == key);
        }
    }
}

proof fn lemma_known_nodes<V>(s: Seq<(Seq<char>, V)>, dependencies: Seq<Seq<char>>)
    ensures
        forall|k: int|
            0 <= k < known_nodes(s, dependencies).len() ==> {
                let v = #[trigger] known_nodes(s, dependencies)[k];
                0 <= v < s.len() && dependencies.contains(s[v].0)
            },
        table::ordered(s) ==> forall|v: int|
            0 <= v < s.len() && dependencies.contains((#[trigger] s[v]).0) ==> known_nodes(
                s,
                dependencies,
            ).contains(v),
    decreases dependencies.len(),
{
    if dependencies.len() > 0 {
        let front = dependencies.drop_last();
        let last = dependencies.last();
        lemma_known_nodes(s, front);
        lemma_key_place(s, last);
        let all = known_nodes(s, dependencies);
        let some = known_nodes(s, front);
        assert forall|k: int| 0 <= k < all.len() implies {
            let v = #[trigger] all[k];
            0 <= v < s.len() && dependencies.contains(s[v].0)
        } by {
            if k < some.len() {
                assert(all[k] == some[k]);
                let v = some[k];
                let j = choose|j: int| 0 <= j < front.len() && front[j] == s[v].0;
                assert(dependencies[j] == s[v].0);
            } else {
                assert(dependencies[dependencies.len() - 1] == last);
            }
        }
        if table::ordered(s) {
            assert forall|v: int|
                0 <= v < s.len() && dependencies.contains((#[trigger] s[v]).0) implies all.contains(
                v,
            ) by {
                let j = choose|j: int| 0 <= j < dependencies.len() && dependencies[j] == s[v].0;
                if j < front.len() {
                    assert(front[j] == s[v].0);
                    assert(some.contains(v));
                    let k = choose|k: int| 0 <= k < some.len() && some[k] == v;
                    assert(all[k] == v);
                } else {
                    assert(table::has_key(s, last));
                    let i = key_place(s, last)->Some_0;
                    table::lemma_same_place(s, i, v);
                    assert(all[all.len() - 1] == v);
                }
            }
        }
    }
}

pub proof fn lemma_edges_are_graph(s: Seq<(Seq<char>, Seq<Seq<char>>)>)
    ensures
        graph::is_graph(dependency_edges(s)),
{
    let g = dependency_edges(s);
    assert forall|i: int, k: int| 0 <= i < g.len() && 0 <= k < g[i].len() implies 0
        <= #[trigger] g[i][k] < g.len() by {
        lemma_known_nodes(s, s[i].1);
        assert(g[i][k] == known_nodes(s, s[i].1)[k]);
    }
}

/// The texts of lists of texts under keys.
pub open spec fn lists_of(map: TextMap<Vec<String>>) -> Seq<(Seq<char>, Seq<Seq<char>>)> {
    table::mapped(map@, |v: Vec<String>| text::texts(v@))
}

fn collect_dependencies(book: &EditableBook) -> (r: TextMap<Vec<String>>)
    ensures
        lists_of(r) == book_table(book@),
{
    let ghost chapters = book@.chapters;
    let mut map: TextMap<Vec<String>> = TextMap::new();
    let mut i: usize = 0;
    assert(chapters.take(0) =~= Seq::empty());
    assert(lists_of(map) =~= Seq::empty());
    while i < book.chapters.len()
        invariant
            i <= book.chapters@.len(),
            chapters == order::views(book.chapters@),
            lists_of(map) == dependency_table(quests_of(chapters.take(i as int))),
        decreases book.chapters@.len() - i,
    {
        let chapter = &book.chapters[i];
        let ghost before = quests_of(chapters.take(i as int));
        let ghost quests = chapter@.quests;
        let mut k: usize = 0;
        assert(before + quests.take(0) =~= before);
        while k < chapter.quests.len()
            invariant
                k <= chapter.quests@.len(),
                quests == order::views(chapter.quests@),
                lists_of(map) == dependency_table(before + quests.take(k as int)),
            decreases chapter.quests@.len() - k,
        {
            let quest = &chapter.quests[k];
            proof {
                let now = before + quests.take(k + 1);
                assert(now.drop_last() =~= before + quests.take(k as int));
                assert(now.last() == quest@);
                table::lemma_mapped(map@, |v: Vec<String>| text::texts(v@), quest.id@);
            }
            map.insert(quest.id.clone(), crate::compose::copy_texts(&quest.dependencies));
            k += 1;
        }
        proof {
            assert(quests.take(k as int) =~= quests);
            assert(chapters.take(i + 1).drop_last() =~= chapters.take(i as int));
            assert(chapters.take(i + 1).last() == chapter@);
        }
        i += 1;
    }
    assert(chapters.take(i as int) =~= chapters);
    map
}

/// The nodes of the dependencies that name a quest.
fn find_nodes(map: &TextMap<Vec<String>>, dependencies: &Vec<String>) -> (r: Vec<usize>)
    ensures
        graph::ints(r@) == known_nodes(lists_of(*map), text::texts(dependencies@)),
{
    let ghost s = lists_of(*map);
    let ghost all = text::texts(dependencies@);
    let mut r: Vec<usize> = Vec::new();
    let mut k: usize = 0;
    assert(all.take(0) =~= Seq::empty());
    assert(graph::ints(r@) =~= Seq::empty());
    while k < dependencies.len()
        invariant
            k <= dependencies@.len(),
            s == lists_of(*map),
            all == text::texts(dependencies@),
            graph::ints(r@) == known_nodes(s, all.take(k as int)),
        decreases dependencies@.len() - k,
    {
        let ghost key = dependencies@[k as int]@;
        proof {
            assert(all.take(k + 1).drop_last() =~= all.take(k as int));
            assert(all.take(k + 1).last() == key);
            lemma_key_place(s, key);
            table::lemma_mapped(map@, |v: Vec<String>| text::texts(v@), key);
        }
        let ghost before = r@;
        match map.position(dependencies[k].as_str()) {
            Some(i) => {
                proof {
                    assert(s[i as int].0 == key);
                    assert(table::has_key(s, key));
                    table::lemma_same_place(s, key_place(s, key)->Some_0, i as int);
                }
                r.push(i);
                assert(graph::ints(r@) =~= graph::ints(before).push(i as int));
            },
            None => {},
        }
        k += 1;
    }
    assert(all.take(k as int) =~= all);
    r
}

fn dependency_graph(map: &TextMap<Vec<String>>) -> (r: Graph)
    ensures
        r.wf(),
        r.names() == keys(lists_of(*map)),
        r.edges() == dependency_edges(lists_of(*map)),
{
    let ghost s = lists_of(*map);
    let n: usize = map.len();
    let mut names: Vec<String> = Vec::new();
    let mut next: Vec<Vec<usize>> = Vec::new();
    let mut i: usize = 0;
    while i < n
        invariant
            i <= n == map@.len() == s.len(),
            s == lists_of(*map),
            names@.len() == i,
            next@.len() == i,
            forall|j: int| 0 <= j < i ==> (#[trigger] names@[j])@ == s[j].0,
            forall|j: int| 0 <= j < i ==> graph::ints((#[trigger] next@[j])@) == known_nodes(s, s[j].1),
        decreases n - i,
    {
        assert(s[i as int] == (map@[i as int].0, text::texts(map@[i as int].1@)));
        names.push(map.key_at(i).to_owned());
        next.push(find_nodes(map, map.value_at(i)));
        i += 1;
    }
    let r = Graph { names, next };
    proof {
        assert(r.names() =~= keys(s));
        assert(r.edges() =~= dependency_edges(s));
        lemma_edges_are_graph(s);
    }
    r
}

// ---------------------------------------------------------------------------
// Finding cycles
// ---------------------------------------------------------------------------

/// The cycles that the search in depth finds, by their ids.
pub open spec fn found_cycles(s: Seq<(Seq<char>, Seq<Seq<char>>)>) -> Seq<Seq<Seq<char>>> {
    let cycles = graph::full_search(dependency_edges(s), keys(s)).cycles;
    Seq::new(cycles.len(), |c: int| graph::named(keys(s), cycles[c]))
}

/// The cycles of dependencies, shorter ones first.
pub open spec fn sorted_cycles(s: Seq<(Seq<char>, Seq<Seq<char>>)>) -> Seq<Seq<Seq<char>>> {
    order::sorted_by(found_cycles(s), order::ranking::<DependencyCycle>())
}

/// The ids of the nodes of a walk.
fn name_nodes(graph: &Graph, walk: &Vec<usize>) -> (r: Vec<String>)
    requires
        graph.wf(),
        forall|i: int| 0 <= i < walk@.len() ==> (#[trigger] walk@[i]) < graph.names@.len(),
    ensures
        text::texts(r@) == graph::named(graph.names(), graph::ints(walk@)),
{
    let mut r: Vec<String> = Vec::new();
    let mut i: usize = 0;
    while i < walk.len()
        invariant
            i <= walk@.len(),
            graph.wf(),
            forall|j: int| 0 <= j < walk@.len() ==> (#[trigger] walk@[j]) < graph.names@.len(),
            r@.len() == i,
            forall|j: int| 0 <= j < i ==> (#[trigger] r@[j])@ == graph.names@[walk@[j] as int]@,
        decreases walk@.len() - i,
    {
        r.push(graph.names[walk[i]].clone());
        i += 1;
    }
    assert(text::texts(r@) =~= graph::named(graph.names(), graph::ints(walk@)));
    r
}

/// The cycles of dependencies of a book, shorter ones first.
pub fn find_dependency_cycles(book: &EditableBook) -> (r: Vec<DependencyCycle>)
    ensures
        order::views(r@) == sorted_cycles(book_table(book@)),
{
    let map = collect_dependencies(book);
    let graph = dependency_graph(&map);
    let ghost s = book_table(book@);
    let ghost cycles = graph::full_search(dependency_edges(s), keys(s)).cycles;
    let walks = find_cycles(&graph);
    proof {
        lemma_edges_are_graph(s);
        graph::law_search_finds_cycles(dependency_edges(s), keys(s));
    }
    let mut found: Vec<DependencyCycle> = Vec::new();
    let mut i: usize = 0;
    while i < walks.len()
        invariant
            i <= walks@.len(),
            graph.wf(),
            walks@.len() == cycles.len(),
            graph.names() == keys(s),
            graph.edges() == dependency_edges(s),
            forall|c: int|
                0 <= c < cycles.len() ==> graph::is_cycle(dependency_edges(s), #[trigger] cycles[c]),
            forall|c: int| 0 <= c < walks@.len() ==> graph::ints((#[trigger] walks@[c])@) == cycles[c],
            found@.len() == i,
            forall|c: int| 0 <= c < i ==> (#[trigger] found@[c])@ == graph::named(keys(s), cycles[c]),
        decreases walks@.len() - i,
    {
        proof {
            assert(graph::is_cycle(dependency_edges(s), cycles[i as int]));
            assert forall|k: int| 0 <= k < walks@[i as int]@.len() implies (
            #[trigger] walks@[i as int]@[k]) < graph.names@.len() by {
                assert(graph::ints(walks@[i as int]@)[k] == cycles[i as int][k]);
            }
        }
        found.push(DependencyCycle { quest_ids: name_nodes(&graph, &walks[i]) });
        i += 1;
    }
    assert(order::views(found@) =~= found_cycles(s));
    order::sort(found)
}

// ---------------------------------------------------------------------------
// Dependencies on quests that are not there
// ---------------------------------------------------------------------------

/// A quest and a dependency of it that names no quest.
#[derive(Debug, Clone, PartialEq, Eq)]
pub struct BrokenDependency {
    pub quest_id: String,
    pub missing_quest_id: String,
}

impl View for BrokenDependency {
    type V = (Seq<char>, Seq<char>);

    open spec fn view(&self) -> (Seq<char>, Seq<char>) {
        (self.quest_id@, self.missing_quest_id@)
    }
}

impl Ranked for BrokenDependency {
    open spec fn goes_before(a: (Seq<char>, Seq<char>), b: (Seq<char>, Seq<char>)) -> bool {
        text::precedes(a.0, b.0) || (a.0 == b.0 && text::precedes(a.1, b.1))
    }

    fn is_ranked_before(&self, other: &Self) -> (r: bool) {
        if text::same(self.quest_id.as_str(), other.quest_id.as_str()) {
            proof {
                text::lemma_precedes_irreflexive(self.quest_id@);
            }
            text::is_before(self.missing_quest_id.as_str(), other.missing_quest_id.as_str())
        } else {
            text::is_before(self.quest_id.as_str(), other.quest_id.as_str())
        }
    }
}

/// A quest of that id is there.
pub open spec fn is_known(quests: Seq<quest::QuestModel>, id: Seq<char>) -> bool {
    exists|i: int| 0 <= i < quests.len() && (#[trigger] quests[i]).id == id
}

/// The dependencies of a quest that name no quest.
pub open spec fn missing_of(
    quests: Seq<quest::QuestModel>,
    id: Seq<char>,
    dependencies: Seq<Seq<char>>,
) -> Seq<(Seq<char>, Seq<char>)>
    decreases dependencies.len(),
{
    if dependencies.len() == 0 {
        Seq::empty()
    } else {
        let front = missing_of(quests, id, dependencies.drop_last());
        if is_known(quests, dependencies.last()) {
            front
        } else {
            front.push((id, dependencies.last()))
        }
    }
}

/// The dependencies of the first quests that name no quest.
pub open spec fn missing(quests: Seq<quest::QuestModel>, first: Seq<quest::QuestModel>) -> Seq<
    (Seq<char>, Seq<char>),
>
    decreases first.len(),
{
    if first.len() == 0 {
        Seq::empty()
    } else {
        missing(quests, first.drop_last()) + missing_of(
            quests,
            first.last().id,
            first.last().dependencies,
        )
    }
}

/// The dependencies of a book that name no quest, in the order of their quests.
pub open spec fn sorted_missing(quests: Seq<quest::QuestModel>) -> Seq<(Seq<char>, Seq<char>)> {
    order::sorted_by(missing(quests, quests), order::ranking::<BrokenDependency>())
}

proof fn lemma_known(quests: Seq<quest::QuestModel>, id: Seq<char>)
    ensures
        table::has_key(dependency_table(quests), id) == is_known(quests, id),
    decreases quests.len(),
{
    if quests.len() > 0 {
        let front = quests.drop_last();
        lemma_known(front, id);
        lemma_table_ordered(front);
        let before = dependency_table(front);
        let last = quests.last();
        table::lemma_upsert(before, last.id, last.dependencies);
        table::lemma_lookup_some(before, id);
        table::lemma_lookup_some(dependency_table(quests), id);
        if is_known(front, id) {
            let i = choose|i: int| 0 <= i < front.len() && (#[trigger] front[i]).id == id;
            assert(quests[i].id == id);
        }
        if is_known(quests, id) && id != last.id {
            let i = choose|i: int| 0 <= i < quests.len() && (#[trigger] quests[i]).id == id;
            assert(front[i].id == id);
        }
        if id == last.id {
            assert(quests[quests.len() - 1].id == id);
        }
    }
}

/// The dependencies of a book that name no quest, in the order of their quests.
pub fn find_broken_dependencies(book: &EditableBook) -> (r: Vec<BrokenDependency>)
    ensures
        order::views(r@) == sorted_missing(quests_of(book@.chapters)),
{
    let map = collect_dependencies(book);
    let ghost chapters = book@.chapters;
    let ghost all = quests_of(chapters);
    let mut broken: Vec<BrokenDependency> = Vec::new();
    let mut i: usize = 0;
    assert(chapters.take(0) =~= Seq::empty());
    assert(order::views(broken@) =~= Seq::empty());
    while i < book.chapters.len()
        invariant
            i <= book.chapters@.len(),
            chapters == order::views(book.chapters@),
            lists_of(map) == dependency_table(all),
            order::views(broken@) == missing(all, quests_of(chapters.take(i as int))),
        decreases book.chapters@.len() - i,
    {
        let chapter = &book.chapters[i];
        let ghost before = quests_of(chapters.take(i as int));
        let ghost quests = chapter@.quests;
        let mut k: usize = 0;
        assert(before + quests.take(0) =~= before);
        while k < chapter.quests.len()
            invariant
                k <= chapter.quests@.len(),
                quests == order::views(chapter.quests@),
                lists_of(map) == dependency_table(all),
                order::views(broken@) == missing(all, before + quests.take(k as int)),
            decreases chapter.quests@.len() - k,
        {
            let quest = &chapter.quests[k];
            let ghost now = before + quests.take(k + 1);
            let ghost so_far = order::views(broken@);
            let ghost names = quest@.dependencies;
            proof {
                assert(now.drop_last() =~= before + quests.take(k as int));
                assert(now.last() == quest@);
            }
            let mut d: usize = 0;
            assert(names.take(0) =~= Seq::empty());
            assert(so_far + missing_of(all, quest.id@, names.take(0)) =~= so_far);
            while d < quest.dependencies.len()
                invariant
                    d <= quest.dependencies@.len(),
                    names == text::texts(quest.dependencies@),
                    lists_of(map) == dependency_table(all),
                    order::views(broken@) == so_far + missing_of(
                        all,
                        quest.id@,
                        names.take(d as int),
                    ),
                decreases quest.dependencies@.len() - d,
            {
                let name = &quest.dependencies[d];
                let ghost list = broken@;
                proof {
                    assert(names.take(d + 1).drop_last() =~= names.take(d as int));
                    assert(names.take(d + 1).last() == name@);
                    lemma_known(all, name@);
                    table::lemma_mapped(map@, |v: Vec<String>| text::texts(v@), name@);
                }
                if !map.contains_key(name.as_str()) {
                    broken.push(
                        BrokenDependency {
                            quest_id: quest.id.clone(),
                            missing_quest_id: name.clone(),
                        },
                    );
                    assert(order::views(broken@) =~= order::views(list).push((quest.id@, name@)));
                    assert(order::views(broken@) =~= so_far + missing_of(
                        all,
                        quest.id@,
                        names.take(d + 1),
                    ));
                }
                d += 1;
            }
            assert(names.take(d as int) =~= names);
            k += 1;
        }
        proof {
            assert(quests.take(k as int) =~= quests);
            assert(chapters.take(i + 1).drop_last() =~= chapters.take(i as int));
            assert(chapters.take(i + 1).last() == chapter@);
        }
        i += 1;
    }
    assert(chapters.take(i as int) =~= chapters);
    order::sort(broken)
}

// ---------------------------------------------------------------------------
// A new dependency
// ---------------------------------------------------------------------------

/// The cycle that a new dependency closes: the quest, and the way from the dependency back to
/// it that is found first.
pub open spec fn closed_cycle(
    s: Seq<(Seq<char>, Seq<Seq<char>>)>,
    quest_id: Seq<char>,
    dependency_id: Seq<char>,
) -> Option<Seq<Seq<char>>> {
    if quest_id == dependency_id {
        Some(seq![quest_id, quest_id])
    } else {
        match (key_place(s, dependency_id), key_place(s, quest_id)) {
            (Some(from), Some(to)) => match graph::first_way(dependency_edges(s), from, to) {
                Some(way) => Some(seq![quest_id] + graph::named(keys(s), way)),
                None => None,
            },
            _ => None,
        }
    }
}

fn find_node(map: &TextMap<Vec<String>>, id: &str) -> (r: Option<usize>)
    ensures
        match r {
            Some(i) => i < map@.len() && key_place(lists_of(*map), id@) == Some(i as int),
            None => key_place(lists_of(*map), id@) is None,
        },
{
    proof {
        lemma_key_place(lists_of(*map), id@);
        table::lemma_mapped(map@, |v: Vec<String>| text::texts(v@), id@);
    }
    match map.position(id) {
        Some(i) => {
            proof {
                let s = lists_of(*map);
                assert(s[i as int].0 == id@);
                assert(table::has_key(s, id@));
                table::lemma_same_place(s, key_place(s, id@)->Some_0, i as int);
            }
            Some(i)
        },
        None => None,
    }
}

/// The cycle that a new dependency of a quest would close.
pub fn cycle_after_adding_dependency(
    book: &EditableBook,
    quest_id: &str,
    dependency_id: &str,
) -> (r: Option<DependencyCycle>)
    ensures
        match r {
            Some(cycle) => closed_cycle(book_table(book@), quest_id@, dependency_id@) == Some(
                cycle@,
            ),
            None => closed_cycle(book_table(book@), quest_id@, dependency_id@) is None,
        },
{
    if text::same(quest_id, dependency_id) {
        let mut quest_ids: Vec<String> = Vec::new();
        quest_ids.push(quest_id.to_owned());
        quest_ids.push(quest_id.to_owned());
        assert(text::texts(quest_ids@) =~= seq![quest_id@, quest_id@]);
        return Some(DependencyCycle { quest_ids });
    }
    let map = collect_dependencies(book);
    let ghost s = book_table(book@);
    let from: usize = match find_node(&map, dependency_id) {
        Some(i) => i,
        None => {
            return None;
        },
    };
    let to: usize = match find_node(&map, quest_id) {
        Some(i) => i,
        None => {
            return None;
        },
    };
    let graph = dependency_graph(&map);
    proof {
        lemma_edges_are_graph(s);
        graph::law_first_way_is_shortest(dependency_edges(s), from as int, to as int);
    }
    match shortest_path(&graph, from, to) {
        Some(way) => {
            proof {
                assert forall|k: int| 0 <= k < way@.len() implies (#[trigger] way@[k])
                    < graph.names@.len() by {
                    assert(0 <= graph::ints(way@)[k] < dependency_edges(s).len());
                }
            }
            let path = name_nodes(&graph, &way);
            let mut quest_ids: Vec<String> = Vec::new();
            quest_ids.push(quest_id.to_owned());
            let mut i: usize = 0;
            while i < path.len()
                invariant
                    i <= path@.len(),
                    quest_ids@.len() == i + 1,
                    quest_ids@[0]@ == quest_id@,
                    forall|j: int| 1 <= j < i + 1 ==> (#[trigger] quest_ids@[j])@ == path@[j - 1]@,
                decreases path@.len() - i,
            {
                quest_ids.push(path[i].clone());
                i += 1;
            }
            assert(text::texts(quest_ids@) =~= seq![quest_id@] + text::texts(path@));
            Some(DependencyCycle { quest_ids })
        },
        None => None,
    }
}

// ---------------------------------------------------------------------------
// Laws
// ---------------------------------------------------------------------------

/// A quest depends on another one that is there.
pub open spec fn depends(s: Seq<(Seq<char>, Seq<Seq<char>>)>, from: Seq<char>, to: Seq<char>) -> bool {
    &&& table::lookup(s, from) matches Some(dependencies) && dependencies.contains(to)
    &&& table::has_key(s, to)
}

/// Each quest depends on the next one.
pub open spec fn is_chain(s: Seq<(Seq<char>, Seq<Seq<char>>)>, ids: Seq<Seq<char>>) -> bool {
    &&& ids.len() > 0
    &&& forall|i: int| 0 <= i < ids.len() ==> table::has_key(s, #[trigger] ids[i])
    &&& forall|i: int| 0 <= i < ids.len() - 1 ==> depends(s, #[trigger] ids[i], ids[i + 1])
}

/// Quests that depend on each other in a circle.
pub open spec fn is_dependency_cycle(
    s: Seq<(Seq<char>, Seq<Seq<char>>)>,
    ids: Seq<Seq<char>>,
) -> bool {
    is_chain(s, ids) && ids.len() >= 2 && ids[0] == ids.last()
}

proof fn lemma_edge_depends(s: Seq<(Seq<char>, Seq<Seq<char>>)>, a: int, b: int)
    requires
        table::ordered(s),
        0 <= a < s.len(),
        0 <= b < s.len(),
    ensures
        graph::edge(dependency_edges(s), a, b) == depends(s, s[a].0, s[b].0),
{
    table::lemma_lookup_at(s, a);
    table::lemma_lookup_at(s, b);
    lemma_known_nodes(s, s[a].1);
    let out = dependency_edges(s)[a];
    if graph::edge(dependency_edges(s), a, b) {
        let k = choose|k: int| 0 <= k < out.len() && #[trigger] out[k] == b;
        assert(known_nodes(s, s[a].1)[k] == b);
    }
}

/// The quests along a walk are a chain.
pub proof fn lemma_walk_is_chain(s: Seq<(Seq<char>, Seq<Seq<char>>)>, w: Seq<int>)
    requires
        table::ordered(s),
        graph::is_walk(dependency_edges(s), w),
    ensures
        is_chain(s, graph::named(keys(s), w)),
{
    let ids = graph::named(keys(s), w);
    assert forall|i: int| 0 <= i < ids.len() implies table::has_key(s, #[trigger] ids[i]) by {
        assert(0 <= w[i] < s.len());
        assert(s[w[i]].0 == ids[i]);
    }
    assert forall|i: int| 0 <= i < ids.len() - 1 implies depends(s, #[trigger] ids[i], ids[i + 1]) by {
        assert(0 <= w[i] < s.len());
        assert(0 <= w[i + 1] < s.len());
        assert(graph::edge(dependency_edges(s), w[i], w[i + 1]));
        lemma_edge_depends(s, w[i], w[i + 1]);
    }
}

/// The walk along the quests of a chain.
pub proof fn lemma_chain_is_walk(s: Seq<(Seq<char>, Seq<Seq<char>>)>, ids: Seq<Seq<char>>) -> (w:
    Seq<int>)
    requires
        table::ordered(s),
        is_chain(s, ids),
    ensures
        graph::is_walk(dependency_edges(s), w),
        w.len() == ids.len(),
        graph::named(keys(s), w) == ids,
        forall|i: int| 0 <= i < ids.len() ==> key_place(s, #[trigger] ids[i]) == Some(w[i]),
{
    let w = Seq::new(ids.len(), |i: int| key_place(s, ids[i])->Some_0);
    assert forall|i: int| 0 <= i < w.len() implies 0 <= #[trigger] w[i] < s.len() && s[w[i]].0
        == ids[i] && key_place(s, ids[i]) == Some(w[i]) by {
        assert(table::has_key(s, ids[i]));
        lemma_key_place(s, ids[i]);
    }
    assert forall|i: int| 0 <= i < w.len() - 1 implies graph::edge(
        dependency_edges(s),
        #[trigger] w[i],
        w[i + 1],
    ) by {
        assert(depends(s, ids[i], ids[i + 1]));
        assert(0 <= w[i + 1] < s.len());
        lemma_edge_depends(s, w[i], w[i + 1]);
    }
    assert(graph::named(keys(s), w) =~= ids);
    w
}

/// Different quests have different ids.
pub proof fn lemma_names_pass_once(s: Seq<(Seq<char>, Seq<Seq<char>>)>, w: Seq<int>)
    requires
        table::ordered(s),
        graph::is_walk(dependency_edges(s), w),
        graph::passes_once(w),
    ensures
        graph::passes_once(graph::named(keys(s), w)),
{
    let ids = graph::named(keys(s), w);
    assert forall|i: int, j: int| 0 <= i < j < ids.len() - 1 implies #[trigger] ids[i]
        != #[trigger] ids[j] by {
        assert(w[i] != w[j]);
        assert(0 <= w[i] < s.len() && 0 <= w[j] < s.len());
        if w[i] < w[j] {
            assert(text::precedes(s[w[i]].0, s[w[j]].0));
        } else {
            assert(text::precedes(s[w[j]].0, s[w[i]].0));
        }
        text::lemma_precedes_irreflexive(s[w[i]].0);
    }
}

/// What is reported is a cycle of dependencies that passes no quest twice before it closes, no two
/// of those reported are rotations of each other, and a cycle is reported if and only if there is
/// one.
pub proof fn law_reported_cycles(quests: Seq<quest::QuestModel>)
    ensures
        forall|c: int|
            0 <= c < sorted_cycles(dependency_table(quests)).len() ==> is_dependency_cycle(
                dependency_table(quests),
                #[trigger] sorted_cycles(dependency_table(quests))[c],
            ) && graph::passes_once(sorted_cycles(dependency_table(quests))[c]),
        (sorted_cycles(dependency_table(quests)).len() == 0) == !(exists|ids: Seq<Seq<char>>|
            is_dependency_cycle(dependency_table(quests), ids)),
        forall|a: int, b: int|
            0 <= a < b < found_cycles(dependency_table(quests)).len() ==> graph::cycle_key(
                #[trigger] found_cycles(dependency_table(quests))[a],
            ) != graph::cycle_key(#[trigger] found_cycles(dependency_table(quests))[b]),
        sorted_cycles(dependency_table(quests)).to_multiset() == found_cycles(
            dependency_table(quests),
        ).to_multiset(),
{
    broadcast use vstd::seq_lib::group_to_multiset_ensures;

    let s = dependency_table(quests);
    let g = dependency_edges(s);
    lemma_table_ordered(quests);
    lemma_edges_are_graph(s);
    graph::law_search_finds_cycles(g, keys(s));
    let cycles = graph::full_search(g, keys(s)).cycles;
    let found = found_cycles(s);
    let sorted = sorted_cycles(s);
    order::lemma_sorted_keeps(found, order::ranking::<DependencyCycle>());
    assert forall|a: int, b: int| 0 <= a < b < found.len() implies graph::cycle_key(
        #[trigger] found[a],
    ) != graph::cycle_key(#[trigger] found[b]) by {
        assert(graph::cycle_key(graph::named(keys(s), cycles[a])) != graph::cycle_key(
            graph::named(keys(s), cycles[b]),
        ));
    }
    assert forall|c: int| 0 <= c < found.len() implies is_dependency_cycle(s, #[trigger] found[c])
        && graph::passes_once(found[c]) by {
        assert(graph::is_cycle(g, cycles[c]) && graph::passes_once(cycles[c]));
        lemma_walk_is_chain(s, cycles[c]);
        lemma_names_pass_once(s, cycles[c]);
    }
    assert forall|c: int| 0 <= c < sorted.len() implies is_dependency_cycle(
        s,
        #[trigger] sorted[c],
    ) && graph::passes_once(sorted[c]) by {
        assert(sorted.to_multiset().count(sorted[c]) > 0) by {
            assert(sorted.contains(sorted[c]));
        }
        assert(found.contains(sorted[c]));
        let k = choose|k: int| 0 <= k < found.len() && found[k] == sorted[c];
        assert(is_dependency_cycle(s, found[k]));
    }
    if exists|ids: Seq<Seq<char>>| is_dependency_cycle(s, ids) {
        let ids = choose|ids: Seq<Seq<char>>| is_dependency_cycle(s, ids);
        let w = lemma_chain_is_walk(s, ids);
        assert(key_place(s, ids[0]) == Some(w[0]));
        assert(key_place(s, ids[ids.len() - 1]) == Some(w[ids.len() - 1]));
        assert(graph::is_cycle(g, w));
    } else if sorted.len() > 0 {
        assert(is_dependency_cycle(s, sorted[0]));
    }
}

/// A new dependency closes a cycle if and only if the dependency is the quest itself or depends
/// on it, directly or through others; the cycle that is given is then as short as any.
pub proof fn law_new_dependency_cycle(
    quests: Seq<quest::QuestModel>,
    quest_id: Seq<char>,
    dependency_id: Seq<char>,
)
    requires
        quest_id != dependency_id,
    ensures
        match closed_cycle(dependency_table(quests), quest_id, dependency_id) {
            Some(ids) => {
                &&& ids[0] == quest_id
                &&& is_chain(dependency_table(quests), ids.skip(1))
                &&& ids[1] == dependency_id
                &&& ids.last() == quest_id
                &&& forall|chain: Seq<Seq<char>>| #[trigger]
                    is_chain(dependency_table(quests), chain) && chain[0] == dependency_id
                        && chain.last() == quest_id ==> ids.len() <= chain.len() + 1
            },
            None => forall|chain: Seq<Seq<char>>| #[trigger]
                is_chain(dependency_table(quests), chain) && chain[0] == dependency_id
                    ==> chain.last() != quest_id,
        },
{
    let s = dependency_table(quests);
    let g = dependency_edges(s);
    lemma_table_ordered(quests);
    lemma_edges_are_graph(s);
    lemma_key_place(s, dependency_id);
    lemma_key_place(s, quest_id);
    let from = key_place(s, dependency_id);
    let to = key_place(s, quest_id);
    if from is Some && to is Some {
        let a = from->Some_0;
        let b = to->Some_0;
        graph::law_first_way_is_shortest(g, a, b);
        if let Some(way) = graph::first_way(g, a, b) {
            let ids = closed_cycle(s, quest_id, dependency_id)->Some_0;
            let names = graph::named(keys(s), way);
            lemma_walk_is_chain(s, way);
            assert(ids.skip(1) =~= names);
            assert(names[0] == s[a].0);
            assert(ids.last() == names.last());
            assert(names[names.len() - 1] == s[way[way.len() - 1]].0);
        }
    }
    assert forall|chain: Seq<Seq<char>>| #[trigger]
        is_chain(s, chain) && chain[0] == dependency_id && chain.last() == quest_id implies match closed_cycle(
        s,
        quest_id,
        dependency_id,
    ) {
        Some(ids) => ids.len() <= chain.len() + 1,
        None => false,
    } by {
        let w = lemma_chain_is_walk(s, chain);
        assert(key_place(s, chain[0]) == Some(w[0]));
        assert(key_place(s, chain[chain.len() - 1]) == Some(w[chain.len() - 1]));
        assert(graph::is_walk(g, w) && w[0] == from->Some_0 && w.last() == to->Some_0);
    }
}

proof fn lemma_missing_of(
    quests: Seq<quest::QuestModel>,
    id: Seq<char>,
    dependencies: Seq<Seq<char>>,
    gap: (Seq<char>, Seq<char>),
)
    ensures
        missing_of(quests, id, dependencies).contains(gap) == (gap.0 == id
            && dependencies.contains(gap.1) && !is_known(quests, gap.1)),
    decreases dependencies.len(),
{
    if dependencies.len() > 0 {
        let front = dependencies.drop_last();
        let last = dependencies.last();
        lemma_missing_of(quests, id, front, gap);
        let some = missing_of(quests, id, front);
        let all = missing_of(quests, id, dependencies);
        assert(dependencies.contains(gap.1) == (front.contains(gap.1) || gap.1 == last)) by {
            if dependencies.contains(gap.1) {
                let i = choose|i: int| 0 <= i < dependencies.len() && dependencies[i] == gap.1;
                if i < front.len() {
                    assert(front[i] == gap.1);
                }
            }
            if front.contains(gap.1) {
                let i = choose|i: int| 0 <= i < front.len() && front[i] == gap.1;
                assert(dependencies[i] == gap.1);
            }
            assert(dependencies[dependencies.len() - 1] == last);
        }
        if !is_known(quests, last) {
            assert(all.contains(gap) == (some.contains(gap) || gap == (id, last))) by {
                if all.contains(gap) {
                    let i = choose|i: int| 0 <= i < all.len() && all[i] == gap;
                    if i < some.len() {
                        assert(some[i] == gap);
                    }
                }
                if some.contains(gap) {
                    let i = choose|i: int| 0 <= i < some.len() && some[i] == gap;
                    assert(all[i] == gap);
                }
                assert(all[all.len() - 1] == (id, last));
            }
        }
    }
}

proof fn lemma_missing(
    quests: Seq<quest::QuestModel>,
    first: Seq<quest::QuestModel>,
    gap: (Seq<char>, Seq<char>),
)
    ensures
        missing(quests, first).contains(gap) == (!is_known(quests, gap.1) && exists|i: int|
            0 <= i < first.len() && (#[trigger] first[i]).id == gap.0
                && first[i].dependencies.contains(gap.1)),
    decreases first.len(),
{
    if first.len() > 0 {
        let front = first.drop_last();
        let last = first.last();
        lemma_missing(quests, front, gap);
        lemma_missing_of(quests, last.id, last.dependencies, gap);
        let a = missing(quests, front);
        let b = missing_of(quests, last.id, last.dependencies);
        let all = a + b;
        if all.contains(gap) {
            let i = choose|i: int| 0 <= i < all.len() && all[i] == gap;
            if i < a.len() {
                assert(a[i] == gap);
                let k = choose|k: int|
                    0 <= k < front.len() && (#[trigger] front[k]).id == gap.0
                        && front[k].dependencies.contains(gap.1);
                assert(first[k].id == gap.0);
            } else {
                assert(b[i - a.len()] == gap);
                assert(first[first.len() - 1].id == gap.0);
            }
        }
        if !is_known(quests, gap.1) && exists|i: int|
            0 <= i < first.len() && (#[trigger] first[i]).id == gap.0
                && first[i].dependencies.contains(gap.1) {
            let k = choose|k: int|
                0 <= k < first.len() && (#[trigger] first[k]).id == gap.0
                    && first[k].dependencies.contains(gap.1);
            if k < front.len() {
                assert(front[k].id == gap.0);
                let i = choose|i: int| 0 <= i < a.len() && a[i] == gap;
                assert(all[i] == gap);
            } else {
                let i = choose|i: int| 0 <= i < b.len() && b[i] == gap;
                assert(all[a.len() + i] == gap);
            }
        }
    }
}

/// A dependency is reported as broken if and only if a quest has it and it names no quest.
pub proof fn law_reported_broken_dependencies(
    quests: Seq<quest::QuestModel>,
    gap: (Seq<char>, Seq<char>),
)
    ensures
        sorted_missing(quests).contains(gap) == (!is_known(quests, gap.1) && exists|i: int|
            0 <= i < quests.len() && (#[trigger] quests[i]).id == gap.0
                && quests[i].dependencies.contains(gap.1)),
{
    broadcast use vstd::seq_lib::group_to_multiset_ensures;

    lemma_missing(quests, quests, gap);
    let all = missing(quests, quests);
    order::lemma_sorted_keeps(all, order::ranking::<BrokenDependency>());
    assert(sorted_missing(quests).contains(gap) == (sorted_missing(quests).to_multiset().count(gap)
        > 0));
    assert(all.contains(gap) == (all.to_multiset().count(gap) > 0));
}

} // verus!
