//! That the editor makes no cycle of dependencies.

use crate::diagnostics;
use crate::editor;
use crate::labels;
use crate::quest;
use crate::session;
use crate::session::SessionModel;
use crate::table;
use vstd::prelude::*;

verus! {

/// No quests of a book depend on each other in a circle.
pub open spec fn is_acyclic(book: editor::BookModel) -> bool {
    forall|ids: Seq<Seq<char>>|
        !#[trigger] diagnostics::is_dependency_cycle(diagnostics::book_table(book), ids)
}

/// The quests of the second table are those of the first one, and each depends on no other
/// quests than before, but for `quest_id`, which may depend on `dependency_id` too.
spec fn adds_only(
    s: Seq<(Seq<char>, Seq<Seq<char>>)>,
    t: Seq<(Seq<char>, Seq<Seq<char>>)>,
    quest_id: Seq<char>,
    dependency_id: Seq<char>,
) -> bool {
    &&& forall|key: Seq<char>| #[trigger] table::has_key(t, key) ==> table::has_key(s, key)
    &&& forall|from: Seq<char>, to: Seq<char>| #[trigger]
        diagnostics::depends(t, from, to) ==> diagnostics::depends(s, from, to) || (from == quest_id
            && to == dependency_id)
}

/// The first place of an id in a chain that ends with it.
proof fn lemma_first_place(chain: Seq<Seq<char>>, id: Seq<char>) -> (j: int)
    requires
        chain.len() > 0,
        chain.last() == id,
    ensures
        0 <= j < chain.len(),
        chain[j] == id,
        forall|i: int| 0 <= i < j ==> #[trigger] chain[i] != id,
    decreases chain.len(),
{
    let front = chain.drop_last();
    if front.contains(id) {
        let k = choose|k: int| 0 <= k < front.len() && front[k] == id;
        let head = chain.take(k + 1);
        let j = lemma_first_place(head, id);
        assert forall|i: int| 0 <= i < j implies #[trigger] chain[i] != id by {
            assert(head[i] == chain[i]);
        }
        j
    } else {
        assert forall|i: int| 0 <= i < chain.len() - 1 implies #[trigger] chain[i] != id by {
            assert(front[i] == chain[i]);
        }
        chain.len() - 1
    }
}

/// A chain from the new dependency to the quest that has it goes through old dependencies up to
/// where it first meets the quest.
proof fn lemma_old_way(
    s: Seq<(Seq<char>, Seq<Seq<char>>)>,
    t: Seq<(Seq<char>, Seq<Seq<char>>)>,
    chain: Seq<Seq<char>>,
    quest_id: Seq<char>,
    dependency_id: Seq<char>,
) -> (way: Seq<Seq<char>>)
    requires
        adds_only(s, t, quest_id, dependency_id),
        diagnostics::is_chain(t, chain),
        chain[0] == dependency_id,
        chain.last() == quest_id,
    ensures
        diagnostics::is_chain(s, way),
        way[0] == dependency_id,
        way.last() == quest_id,
{
    let j = lemma_first_place(chain, quest_id);
    let way = chain.take(j + 1);
    assert forall|i: int| 0 <= i < way.len() implies table::has_key(s, #[trigger] way[i]) by {
        assert(way[i] == chain[i]);
        assert(table::has_key(t, chain[i]));
    }
    assert forall|i: int| 0 <= i < way.len() - 1 implies diagnostics::depends(
        s,
        #[trigger] way[i],
        way[i + 1],
    ) by {
        assert(way[i] == chain[i] && way[i + 1] == chain[i + 1]);
        assert(chain[i] != quest_id);
        assert(diagnostics::depends(t, chain[i], chain[i + 1]));
    }
    way
}

/// The part of a cycle from behind its `k`th quest round to that quest.
proof fn lemma_way_round(t: Seq<(Seq<char>, Seq<Seq<char>>)>, ids: Seq<Seq<char>>, k: int) -> (chain:
    Seq<Seq<char>>)
    requires
        diagnostics::is_dependency_cycle(t, ids),
        0 <= k < ids.len() - 1,
    ensures
        diagnostics::is_chain(t, chain),
        chain[0] == ids[k + 1],
        chain.last() == ids[k],
{
    let tail = ids.skip(k + 1);
    let head = ids.subrange(1, k + 1);
    let chain = tail + head;
    let n = tail.len();
    assert forall|i: int| 0 <= i < chain.len() implies chain[i] == (if i < n {
        ids[i + k + 1]
    } else {
        ids[i - n + 1]
    }) && table::has_key(t, #[trigger] chain[i]) by {
        if i < n {
            assert(table::has_key(t, ids[i + k + 1]));
        } else {
            assert(table::has_key(t, ids[i - n + 1]));
        }
    }
    assert forall|i: int| 0 <= i < chain.len() - 1 implies diagnostics::depends(
        t,
        #[trigger] chain[i],
        chain[i + 1],
    ) by {
        if i + 1 < n {
            assert(diagnostics::depends(t, ids[i + k + 1], ids[i + k + 2]));
        } else if i + 1 == n {
            assert(chain[i] == ids.last());
            assert(diagnostics::depends(t, ids[0], ids[1]));
        } else {
            assert(diagnostics::depends(t, ids[i - n + 1], ids[i - n + 2]));
        }
    }
    chain
}

/// A dependency that closes no cycle adds none.
proof fn lemma_no_new_cycle(
    s: Seq<(Seq<char>, Seq<Seq<char>>)>,
    t: Seq<(Seq<char>, Seq<Seq<char>>)>,
    quest_id: Seq<char>,
    dependency_id: Seq<char>,
    ids: Seq<Seq<char>>,
)
    requires
        adds_only(s, t, quest_id, dependency_id),
        forall|cycle: Seq<Seq<char>>| !#[trigger] diagnostics::is_dependency_cycle(s, cycle),
        forall|chain: Seq<Seq<char>>| #[trigger]
            diagnostics::is_chain(s, chain) && chain[0] == dependency_id ==> chain.last()
                != quest_id,
    ensures
        !diagnostics::is_dependency_cycle(t, ids),
{
    if diagnostics::is_dependency_cycle(t, ids) {
        assert forall|k: int| 0 <= k < ids.len() - 1 implies diagnostics::depends(
            s,
            #[trigger] ids[k],
            ids[k + 1],
        ) by {
            assert(diagnostics::depends(t, ids[k], ids[k + 1]));
            if !diagnostics::depends(s, ids[k], ids[k + 1]) {
                let chain = lemma_way_round(t, ids, k);
                let way = lemma_old_way(s, t, chain, quest_id, dependency_id);
                assert(false);
            }
        }
        assert forall|k: int| 0 <= k < ids.len() implies table::has_key(s, #[trigger] ids[k]) by {
            assert(table::has_key(t, ids[k]));
        }
        assert(diagnostics::is_dependency_cycle(s, ids));
    }
}

/// The quests with other dependencies for the `n`th of them.
spec fn with_dependencies(
    quests: Seq<quest::QuestModel>,
    n: int,
    dependencies: Seq<Seq<char>>,
) -> Seq<quest::QuestModel> {
    quests.update(n, quest::QuestModel { dependencies, ..quests[n] })
}

/// Other dependencies of a quest change only what stands under its id, if anything.
proof fn lemma_table_changed(
    quests: Seq<quest::QuestModel>,
    n: int,
    dependencies: Seq<Seq<char>>,
    key: Seq<char>,
)
    requires
        0 <= n < quests.len(),
    ensures
        ({
            let before = table::lookup(diagnostics::dependency_table(quests), key);
            let after = table::lookup(
                diagnostics::dependency_table(with_dependencies(quests, n, dependencies)),
                key,
            );
            after == before || (key == quests[n].id && before == Some(quests[n].dependencies)
                && after == Some(dependencies))
        }),
    decreases quests.len(),
{
    let changed = with_dependencies(quests, n, dependencies);
    let front = quests.drop_last();
    diagnostics::lemma_table_ordered(front);
    diagnostics::lemma_table_ordered(changed.drop_last());
    table::lemma_upsert(
        diagnostics::dependency_table(front),
        quests.last().id,
        quests.last().dependencies,
    );
    table::lemma_upsert(
        diagnostics::dependency_table(changed.drop_last()),
        changed.last().id,
        changed.last().dependencies,
    );
    if n == quests.len() - 1 {
        assert(changed.drop_last() =~= front);
    } else {
        assert(changed.drop_last() =~= with_dependencies(front, n, dependencies));
        lemma_table_changed(front, n, dependencies, key);
    }
}

/// A quest that depends on what it depended on before, and on one quest more at most, adds only
/// that to the table.
proof fn lemma_table_adds_only(
    quests: Seq<quest::QuestModel>,
    n: int,
    dependencies: Seq<Seq<char>>,
    dependency_id: Seq<char>,
)
    requires
        0 <= n < quests.len(),
        forall|d: Seq<char>| #[trigger]
            dependencies.contains(d) ==> quests[n].dependencies.contains(d) || d == dependency_id,
    ensures
        adds_only(
            diagnostics::dependency_table(quests),
            diagnostics::dependency_table(with_dependencies(quests, n, dependencies)),
            quests[n].id,
            dependency_id,
        ),
{
    let s = diagnostics::dependency_table(quests);
    let t = diagnostics::dependency_table(with_dependencies(quests, n, dependencies));
    assert forall|key: Seq<char>| #[trigger] table::has_key(t, key) implies table::has_key(s, key) by {
        lemma_table_changed(quests, n, dependencies, key);
        table::lemma_lookup_some(s, key);
        table::lemma_lookup_some(t, key);
    }
    assert forall|from: Seq<char>, to: Seq<char>| #[trigger]
        diagnostics::depends(t, from, to) implies diagnostics::depends(s, from, to) || (from
        == quests[n].id && to == dependency_id) by {
        lemma_table_changed(quests, n, dependencies, from);
        assert(table::has_key(t, to));
    }
}

/// The place of a quest among all quests of the chapters.
proof fn lemma_place_among_all(
    chapters: Seq<quest::ChapterModel>,
    c: int,
    i: int,
    changed: quest::QuestModel,
) -> (n: int)
    requires
        0 <= c < chapters.len(),
        0 <= i < chapters[c].quests.len(),
    ensures
        0 <= n < diagnostics::quests_of(chapters).len(),
        diagnostics::quests_of(chapters)[n] == chapters[c].quests[i],
        diagnostics::quests_of(
            chapters.update(
                c,
                editor::with_quests(chapters[c], chapters[c].quests.update(i, changed)),
            ),
        ) == diagnostics::quests_of(chapters).update(n, changed),
    decreases chapters.len(),
{
    let front = chapters.drop_last();
    let before = diagnostics::quests_of(front);
    let new_chapter = editor::with_quests(chapters[c], chapters[c].quests.update(i, changed));
    let after = chapters.update(c, new_chapter);
    if c == chapters.len() - 1 {
        let n = before.len() + i;
        assert(after.drop_last() =~= front);
        assert(after.last() == new_chapter);
        assert(diagnostics::quests_of(after) =~= diagnostics::quests_of(chapters).update(n, changed));
        n
    } else {
        let n = lemma_place_among_all(front, c, i, changed);
        assert(after.drop_last() =~= front.update(c, new_chapter));
        assert(after.last() == chapters.last());
        assert(diagnostics::quests_of(after) =~= diagnostics::quests_of(chapters).update(n, changed));
        n
    }
}

/// A book in which a quest depends on one quest more, which closes no cycle, has no cycle where
/// it had none.
proof fn lemma_linked_book(
    book: editor::BookModel,
    c: int,
    i: int,
    dependencies: Seq<Seq<char>>,
    dependency_id: Seq<char>,
)
    requires
        is_acyclic(book),
        0 <= c < book.chapters.len(),
        0 <= i < book.chapters[c].quests.len(),
        forall|d: Seq<char>| #[trigger]
            dependencies.contains(d) ==> book.chapters[c].quests[i].dependencies.contains(d) || (d
                == dependency_id && diagnostics::closed_cycle(
                diagnostics::book_table(book),
                book.chapters[c].quests[i].id,
                dependency_id,
            ) is None),
    ensures
        is_acyclic(
            session::with_quest(
                book,
                c,
                i,
                quest::QuestModel { dependencies, ..book.chapters[c].quests[i] },
            ),
        ),
{
    let quest = book.chapters[c].quests[i];
    let changed = quest::QuestModel { dependencies, ..quest };
    let quests = diagnostics::quests_of(book.chapters);
    let n = lemma_place_among_all(book.chapters, c, i, changed);
    let s = diagnostics::book_table(book);
    let t = diagnostics::book_table(session::with_quest(book, c, i, changed));
    assert(forall|cycle: Seq<Seq<char>>| !#[trigger] diagnostics::is_dependency_cycle(s, cycle));
    assert(t == diagnostics::dependency_table(with_dependencies(quests, n, dependencies)));
    if diagnostics::closed_cycle(s, quest.id, dependency_id) is None {
        lemma_table_adds_only(quests, n, dependencies, dependency_id);
        diagnostics::law_new_dependency_cycle(quests, quest.id, dependency_id);
        assert forall|ids: Seq<Seq<char>>| !#[trigger] diagnostics::is_dependency_cycle(t, ids) by {
            lemma_no_new_cycle(s, t, quest.id, dependency_id, ids);
        }
    } else {
        lemma_table_adds_only(quests, n, dependencies, dependency_id);
        assert forall|ids: Seq<Seq<char>>| !#[trigger] diagnostics::is_dependency_cycle(t, ids) by {
            if diagnostics::is_dependency_cycle(t, ids) {
                lemma_same_links(quests, n, dependencies);
                assert forall|k: int| 0 <= k < ids.len() - 1 implies diagnostics::depends(
                    s,
                    #[trigger] ids[k],
                    ids[k + 1],
                ) by {
                    assert(diagnostics::depends(t, ids[k], ids[k + 1]));
                }
                assert forall|k: int| 0 <= k < ids.len() implies table::has_key(s, #[trigger] ids[k]) by {
                    assert(table::has_key(t, ids[k]));
                }
                assert(diagnostics::is_dependency_cycle(s, ids));
            }
        }
    }
}

/// A quest that depends on nothing that it did not depend on before adds nothing to the table.
proof fn lemma_same_links(
    quests: Seq<quest::QuestModel>,
    n: int,
    dependencies: Seq<Seq<char>>,
)
    requires
        0 <= n < quests.len(),
        forall|d: Seq<char>| #[trigger]
            dependencies.contains(d) ==> quests[n].dependencies.contains(d),
    ensures
        forall|from: Seq<char>, to: Seq<char>| #[trigger]
            diagnostics::depends(
                diagnostics::dependency_table(with_dependencies(quests, n, dependencies)),
                from,
                to,
            ) ==> diagnostics::depends(diagnostics::dependency_table(quests), from, to),
{
    let s = diagnostics::dependency_table(quests);
    let t = diagnostics::dependency_table(with_dependencies(quests, n, dependencies));
    assert forall|from: Seq<char>, to: Seq<char>| #[trigger]
        diagnostics::depends(t, from, to) implies diagnostics::depends(s, from, to) by {
        lemma_table_changed(quests, n, dependencies, from);
        lemma_table_changed(quests, n, dependencies, to);
        table::lemma_lookup_some(s, to);
        table::lemma_lookup_some(t, to);
    }
}

/// Connecting quests with clicks makes no cycle.
pub proof fn law_connecting_makes_no_cycle(s: SessionModel, id: Seq<char>, elapsed: u64)
    requires
        is_acyclic(s.book),
    ensures
        is_acyclic(session::connected(s, id, elapsed).book),
{
    if let Some(start) = s.connection_start {
        if s.selected_chapter < s.book.chapters.len() {
            let c = s.selected_chapter as int;
            let quests = s.book.chapters[c].quests;
            if let Some(i) = labels::place_in(quests, id, 0) {
                lemma_place_in(quests, id, 0);
                let dependencies = session::depending(quests[i], start).dependencies;
                if diagnostics::closed_cycle(diagnostics::book_table(s.book), id, start) is None {
                    lemma_linked_book(s.book, c, i, dependencies, start);
                }
            }
        }
    }
}

/// Switching a dependency on or off makes no cycle.
pub proof fn law_switching_makes_no_cycle(
    s: SessionModel,
    c: int,
    i: int,
    id: Seq<char>,
    enabled: bool,
    elapsed: u64,
)
    requires
        is_acyclic(s.book),
        0 <= c < s.book.chapters.len(),
        0 <= i < s.book.chapters[c].quests.len(),
    ensures
        is_acyclic(session::switched(s, c, i, id, enabled, elapsed).book),
{
    let quest = s.book.chapters[c].quests[i];
    let book = diagnostics::book_table(s.book);
    if !enabled {
        let left = session::not_depending(quest, id).dependencies;
        assert forall|d: Seq<char>| #[trigger] left.contains(d) implies quest.dependencies.contains(d) by {
            session::lemma_ids_left(quest.dependencies, seq![id], d);
        }
        lemma_linked_book(s.book, c, i, left, id);
    } else if diagnostics::closed_cycle(book, quest.id, id) is None {
        lemma_linked_book(s.book, c, i, session::depending(quest, id).dependencies, id);
    }
}

proof fn lemma_place_in(quests: Seq<quest::QuestModel>, id: Seq<char>, from: int)
    requires
        0 <= from,
    ensures
        labels::place_in(quests, id, from) matches Some(i) ==> from <= i < quests.len()
            && quests[i].id == id,
    decreases quests.len() - from,
{
    if from < quests.len() {
        lemma_place_in(quests, id, from + 1);
    }
}

/// A book has no cycle if and only if none is reported.
pub proof fn law_no_cycle_is_reported(book: editor::BookModel)
    ensures
        is_acyclic(book) == (diagnostics::sorted_cycles(diagnostics::book_table(book)).len() == 0),
{
    diagnostics::law_reported_cycles(diagnostics::quests_of(book.chapters));
}

} // verus!
