//! What editing a book does to it, and what it leaves alone.

use crate::diagnostics;
use crate::duplicate;
use crate::editor;
use crate::export;
use crate::labels;
use crate::naming;
use crate::notation;
use crate::picks;
use crate::quest;
use crate::quest::Number;
use crate::search;
use crate::session;
use crate::session::SessionModel;
use crate::snbt;
use crate::table;
use crate::text;
use vstd::prelude::*;

verus! {

// ---------------------------------------------------------------------------
// Deleting
// ---------------------------------------------------------------------------

/// The quests are the same but for what they depend on.
pub open spec fn differ_in_dependencies(a: quest::QuestModel, b: quest::QuestModel) -> bool {
    a == (quest::QuestModel { dependencies: a.dependencies, ..b })
}

/// Nothing but the quests of the chapters differs.
pub open spec fn differ_in_quests(a: editor::BookModel, b: editor::BookModel) -> bool {
    &&& a.title == b.title
    &&& a.grid_scale == b.grid_scale
    &&& a.groups == b.groups
    &&& a.preserved_files == b.preserved_files
    &&& a.translations == b.translations
    &&& a.chapters.len() == b.chapters.len()
    &&& forall|c: int|
        #![trigger a.chapters[c]]
        0 <= c < a.chapters.len() ==> {
            &&& a.chapters[c].id == b.chapters[c].id
            &&& a.chapters[c].filename == b.chapters[c].filename
            &&& a.chapters[c].title == b.chapters[c].title
            &&& a.chapters[c].group == b.chapters[c].group
            &&& a.chapters[c].order_index == b.chapters[c].order_index
            &&& a.chapters[c].extra == b.chapters[c].extra
        }
}

proof fn lemma_ids_made(ids: Seq<Seq<char>>, removed: Seq<Seq<char>>)
    ensures
        session::ids_without(ids, removed) == picks::made(
            ids,
            |id: Seq<char>|
                if removed.contains(id) {
                    None
                } else {
                    Some(id)
                },
        ),
    decreases ids.len(),
{
    if ids.len() > 0 {
        lemma_ids_made(ids.drop_last(), removed);
    }
}

/// Of a list of ids those stay that are not removed, in their order.
pub proof fn law_other_ids_stay(ids: Seq<Seq<char>>, removed: Seq<Seq<char>>) -> (places: Seq<int>)
    ensures
        picks::picks(ids, |id: Seq<char>| !removed.contains(id), places),
        session::ids_without(ids, removed) == Seq::new(places.len(), |j: int| ids[places[j]]),
{
    let f = |id: Seq<char>|
        if removed.contains(id) {
            None
        } else {
            Some(id)
        };
    lemma_ids_made(ids, removed);
    let places = picks::lemma_made(ids, f);
    picks::lemma_same_wish(
        ids,
        |id: Seq<char>| f(id) is Some,
        |id: Seq<char>| !removed.contains(id),
        places,
    );
    assert forall|j: int| 0 <= j < places.len() implies ids[#[trigger] places[j]]
        == session::ids_without(ids, removed)[j] by {
        assert(f(ids[places[j]]) == Some(picks::made(ids, f)[j]));
    }
    assert(session::ids_without(ids, removed) =~= Seq::new(
        places.len(),
        |j: int| ids[places[j]],
    ));
    places
}

proof fn lemma_quests_made(quests: Seq<quest::QuestModel>, removed: Seq<Seq<char>>)
    ensures
        session::quests_without(quests, removed) == picks::made(
            quests,
            |q: quest::QuestModel|
                if removed.contains(q.id) {
                    None
                } else {
                    Some(session::freed(q, removed))
                },
        ),
    decreases quests.len(),
{
    if quests.len() > 0 {
        lemma_quests_made(quests.drop_last(), removed);
    }
}

/// Deleting quests leaves each other quest in its chapter, in the same order, and with all it had
/// but for what it depends on; of that it keeps what is not deleted. There is nothing else left in
/// the chapter.
pub proof fn law_other_quests_stay(s: SessionModel, removed: Seq<Seq<char>>, c: int) -> (places:
    Seq<int>)
    requires
        0 <= c < s.book.chapters.len(),
    ensures
        picks::picks(
            s.book.chapters[c].quests,
            |q: quest::QuestModel| !removed.contains(q.id),
            places,
        ),
        ({
            let before = s.book.chapters[c].quests;
            let after = session::deleted(s, removed).book.chapters[c].quests;
            &&& after.len() == places.len()
            &&& forall|j: int|
                #![trigger after[j]]
                0 <= j < after.len() ==> differ_in_dependencies(after[j], before[places[j]])
            &&& forall|j: int, d: Seq<char>|
                #![trigger after[j].dependencies.contains(d)]
                0 <= j < after.len() ==> (after[j].dependencies.contains(d) <==> before[
                places[j]].dependencies.contains(d) && !removed.contains(d))
        }),
{
    let before = s.book.chapters[c].quests;
    let after = session::deleted(s, removed).book.chapters[c].quests;
    assert(after == session::quests_without(before, removed));
    let f = |q: quest::QuestModel|
        if removed.contains(q.id) {
            None
        } else {
            Some(session::freed(q, removed))
        };
    lemma_quests_made(before, removed);
    let places = picks::lemma_made(before, f);
    picks::lemma_same_wish(
        before,
        |q: quest::QuestModel| f(q) is Some,
        |q: quest::QuestModel| !removed.contains(q.id),
        places,
    );
    assert forall|j: int| #![trigger after[j]] 0 <= j < after.len() implies after[j]
        == session::freed(before[places[j]], removed) by {
        assert(f(before[places[j]]) == Some(picks::made(before, f)[j]));
    }
    assert forall|j: int, d: Seq<char>|
        #![trigger after[j].dependencies.contains(d)]
        0 <= j < after.len() implies (after[j].dependencies.contains(d) <==> before[
    places[j]].dependencies.contains(d) && !removed.contains(d)) by {
        session::lemma_ids_left(before[places[j]].dependencies, removed, d);
    }
    places
}

/// Where no quest of a chapter has one of the ids and none depends on one, deleting leaves the
/// chapter as it is.
pub proof fn law_untouched_chapter_stays(s: SessionModel, removed: Seq<Seq<char>>, c: int)
    requires
        0 <= c < s.book.chapters.len(),
        forall|i: int|
            0 <= i < s.book.chapters[c].quests.len() ==> !removed.contains(
                (#[trigger] s.book.chapters[c].quests[i]).id,
            ),
        forall|i: int, d: int|
            #![trigger s.book.chapters[c].quests[i].dependencies[d]]
            0 <= i < s.book.chapters[c].quests.len() && 0 <= d
                < s.book.chapters[c].quests[i].dependencies.len() ==> !removed.contains(
                s.book.chapters[c].quests[i].dependencies[d],
            ),
    ensures
        session::deleted(s, removed).book.chapters[c] == s.book.chapters[c],
{
    lemma_untouched(s.book.chapters[c].quests, removed);
}

proof fn lemma_untouched_ids(ids: Seq<Seq<char>>, removed: Seq<Seq<char>>)
    requires
        forall|d: int| 0 <= d < ids.len() ==> !removed.contains(#[trigger] ids[d]),
    ensures
        session::ids_without(ids, removed) == ids,
    decreases ids.len(),
{
    if ids.len() > 0 {
        lemma_untouched_ids(ids.drop_last(), removed);
        assert(ids[ids.len() - 1] == ids.last());
        assert(ids.drop_last().push(ids.last()) =~= ids);
    }
}

proof fn lemma_untouched(quests: Seq<quest::QuestModel>, removed: Seq<Seq<char>>)
    requires
        forall|i: int| 0 <= i < quests.len() ==> !removed.contains((#[trigger] quests[i]).id),
        forall|i: int, d: int|
            #![trigger quests[i].dependencies[d]]
            0 <= i < quests.len() && 0 <= d < quests[i].dependencies.len() ==> !removed.contains(
                quests[i].dependencies[d],
            ),
    ensures
        session::quests_without(quests, removed) == quests,
    decreases quests.len(),
{
    if quests.len() > 0 {
        let front = quests.drop_last();
        assert forall|i: int, d: int|
            #![trigger front[i].dependencies[d]]
            0 <= i < front.len() && 0 <= d < front[i].dependencies.len() implies !removed.contains(
            front[i].dependencies[d],
        ) by {
            assert(front[i].dependencies[d] == quests[i].dependencies[d]);
        }
        lemma_untouched(front, removed);
        assert(quests[quests.len() - 1] == quests.last());
        assert forall|d: int| 0 <= d < quests.last().dependencies.len() implies !removed.contains(
            #[trigger] quests.last().dependencies[d],
        ) by {
            assert(quests[quests.len() - 1].dependencies[d] == quests.last().dependencies[d]);
        }
        lemma_untouched_ids(quests.last().dependencies, removed);
        assert(front.push(quests.last()) =~= quests);
    }
}

/// Deleting quests touches nothing of the book but its quests. Nothing is selected any more and no
/// connection is under way; what was copied, what the log holds and the ids to come stay.
pub proof fn law_deleting_touches_quests_only(s: SessionModel, removed: Seq<Seq<char>>)
    ensures
        differ_in_quests(session::deleted(s, removed).book, s.book),
        session::deleted(s, removed).selected_quest is None,
        session::deleted(s, removed).selected.len() == 0,
        session::deleted(s, removed).connection_start is None,
        session::deleted(s, removed).clipboard == s.clipboard,
        session::deleted(s, removed).logs == s.logs,
        session::deleted(s, removed).id_state == s.id_state,
        session::deleted(s, removed).selected_chapter == s.selected_chapter,
        session::deleted(s, removed).canvas_tool == s.canvas_tool,
        session::deleted(s, removed).right_tab == s.right_tab,
{
}

/// Deleting in two steps leaves the quests that deleting all at once leaves.
pub proof fn law_deleting_in_two_steps(s: SessionModel, a: Seq<Seq<char>>, b: Seq<Seq<char>>)
    ensures
        session::deleted(session::deleted(s, a), b).book == session::deleted(s, a + b).book,
{
    let twice = session::deleted(session::deleted(s, a), b).book.chapters;
    let once = session::deleted(s, a + b).book.chapters;
    assert forall|c: int| 0 <= c < once.len() implies twice[c] == once[c] by {
        lemma_quests_in_two_steps(s.book.chapters[c].quests, a, b);
    }
    assert(twice =~= once);
}

proof fn lemma_in_both(a: Seq<Seq<char>>, b: Seq<Seq<char>>, id: Seq<char>)
    ensures
        (a + b).contains(id) <==> a.contains(id) || b.contains(id),
{
    let all = a + b;
    if a.contains(id) {
        let i = choose|i: int| 0 <= i < a.len() && a[i] == id;
        assert(all[i] == id);
    }
    if b.contains(id) {
        let i = choose|i: int| 0 <= i < b.len() && b[i] == id;
        assert(all[a.len() + i] == id);
    }
    if all.contains(id) {
        let i = choose|i: int| 0 <= i < all.len() && all[i] == id;
        if i < a.len() {
            assert(a[i] == id);
        } else {
            assert(b[i - a.len()] == id);
        }
    }
}

proof fn lemma_ids_in_two_steps(ids: Seq<Seq<char>>, a: Seq<Seq<char>>, b: Seq<Seq<char>>)
    ensures
        session::ids_without(session::ids_without(ids, a), b) == session::ids_without(ids, a + b),
    decreases ids.len(),
{
    if ids.len() > 0 {
        lemma_ids_in_two_steps(ids.drop_last(), a, b);
        lemma_in_both(a, b, ids.last());
        let front = session::ids_without(ids.drop_last(), a);
        assert(front.push(ids.last()).drop_last() =~= front);
    }
}

proof fn lemma_quests_in_two_steps(
    quests: Seq<quest::QuestModel>,
    a: Seq<Seq<char>>,
    b: Seq<Seq<char>>,
)
    ensures
        session::quests_without(session::quests_without(quests, a), b) == session::quests_without(
            quests,
            a + b,
        ),
    decreases quests.len(),
{
    if quests.len() > 0 {
        lemma_quests_in_two_steps(quests.drop_last(), a, b);
        let last = quests.last();
        lemma_in_both(a, b, last.id);
        lemma_ids_in_two_steps(last.dependencies, a, b);
        let front = session::quests_without(quests.drop_last(), a);
        assert(front.push(session::freed(last, a)).drop_last() =~= front);
    }
}

// ---------------------------------------------------------------------------
// Copying and pasting
// ---------------------------------------------------------------------------

/// The value is the other one with a new id: all other fields are those of the other one.
pub open spec fn has_new_id(a: notation::Node, b: notation::Node, id: Seq<char>) -> bool {
    &&& b is Compound ==> a is Compound && snbt::field(a, "id"@) == Some(
        notation::Node::Scalar(id),
    )
    &&& forall|key: Seq<char>| key != "id"@ ==> #[trigger] snbt::field(a, key) == snbt::field(b, key)
    &&& !(b is Compound) ==> a == b
}

pub open spec fn opt_has_new_id(
    a: Option<notation::Node>,
    b: Option<notation::Node>,
    id: Seq<char>,
) -> bool {
    match (a, b) {
        (Some(x), Some(y)) => has_new_id(x, y, id),
        (None, None) => true,
        _ => false,
    }
}

/// The task is the other one with a new id.
pub open spec fn task_has_new_id(a: quest::TaskModel, b: quest::TaskModel, new: Seq<char>) -> bool {
    match (a, b) {
        (
            quest::TaskModel::Checkmark { id, title, raw },
            quest::TaskModel::Checkmark { id: i, title: t, raw: r },
        ) => id == new && title == t && opt_has_new_id(raw, r, new),
        (
            quest::TaskModel::Item { id, title, item, count, raw },
            quest::TaskModel::Item { id: i, title: t, item: m, count: n, raw: r },
        ) => id == new && title == t && item == m && count == n && opt_has_new_id(raw, r, new),
        (
            quest::TaskModel::Kill { id, title, entity, count, raw },
            quest::TaskModel::Kill { id: i, title: t, entity: e, count: n, raw: r },
        ) => id == new && title == t && entity == e && count == n && opt_has_new_id(raw, r, new),
        (
            quest::TaskModel::Unsupported { kind, raw },
            quest::TaskModel::Unsupported { kind: k, raw: r },
        ) => kind == k && has_new_id(raw, r, new),
        _ => false,
    }
}

/// The reward is the other one with a new id.
pub open spec fn reward_has_new_id(
    a: quest::RewardModel,
    b: quest::RewardModel,
    new: Seq<char>,
) -> bool {
    match (a, b) {
        (
            quest::RewardModel::Xp { id, amount, raw },
            quest::RewardModel::Xp { id: i, amount: n, raw: r },
        ) => id == new && amount == n && opt_has_new_id(raw, r, new),
        (
            quest::RewardModel::Item { id, item, count, raw },
            quest::RewardModel::Item { id: i, item: m, count: n, raw: r },
        ) => id == new && item == m && count == n && opt_has_new_id(raw, r, new),
        (
            quest::RewardModel::Unsupported { kind, raw },
            quest::RewardModel::Unsupported { kind: k, raw: r },
        ) => kind == k && has_new_id(raw, r, new),
        _ => false,
    }
}

/// What a task was read from has its fields in order.
pub open spec fn task_is_sound(task: quest::TaskModel) -> bool {
    match task {
        quest::TaskModel::Checkmark { raw, .. } => raw matches Some(n) ==> notation::well_formed(n),
        quest::TaskModel::Item { raw, .. } => raw matches Some(n) ==> notation::well_formed(n),
        quest::TaskModel::Kill { raw, .. } => raw matches Some(n) ==> notation::well_formed(n),
        quest::TaskModel::Unsupported { raw, .. } => notation::well_formed(raw),
    }
}

/// What a reward was read from has its fields in order.
pub open spec fn reward_is_sound(reward: quest::RewardModel) -> bool {
    match reward {
        quest::RewardModel::Xp { raw, .. } => raw matches Some(n) ==> notation::well_formed(n),
        quest::RewardModel::Item { raw, .. } => raw matches Some(n) ==> notation::well_formed(n),
        quest::RewardModel::Unsupported { raw, .. } => notation::well_formed(raw),
    }
}

proof fn lemma_with_new_id(n: notation::Node, id: Seq<char>)
    requires
        notation::well_formed(n),
    ensures
        has_new_id(export::with_scalar(n, "id"@, id), n, id),
{
    match n {
        notation::Node::Compound(entries) => {
            table::lemma_upsert(entries, "id"@, notation::Node::Scalar(id));
            let a = export::with_scalar(n, "id"@, id);
            assert forall|key: Seq<char>| key != "id"@ implies #[trigger] snbt::field(a, key)
                == snbt::field(n, key) by {
                assert(table::lookup(
                    table::upsert(entries, "id"@, notation::Node::Scalar(id)),
                    key,
                ) == table::lookup(entries, key));
            }
        },
        _ => {},
    }
}

/// Giving a task an id changes its id and nothing else, neither in the task nor in what it was
/// read from.
pub proof fn law_assigned_task_id(task: quest::TaskModel, id: Seq<char>)
    requires
        task_is_sound(task),
    ensures
        task_has_new_id(duplicate::task_with_id(task, id), task, id),
{
    match task {
        quest::TaskModel::Checkmark { raw: Some(n), .. } => lemma_with_new_id(n, id),
        quest::TaskModel::Item { raw: Some(n), .. } => lemma_with_new_id(n, id),
        quest::TaskModel::Kill { raw: Some(n), .. } => lemma_with_new_id(n, id),
        quest::TaskModel::Unsupported { raw, .. } => lemma_with_new_id(raw, id),
        _ => {},
    }
}

/// Giving a reward an id changes its id and nothing else, neither in the reward nor in what it was
/// read from.
pub proof fn law_assigned_reward_id(reward: quest::RewardModel, id: Seq<char>)
    requires
        reward_is_sound(reward),
    ensures
        reward_has_new_id(duplicate::reward_with_id(reward, id), reward, id),
{
    match reward {
        quest::RewardModel::Xp { raw: Some(n), .. } => lemma_with_new_id(n, id),
        quest::RewardModel::Item { raw: Some(n), .. } => lemma_with_new_id(n, id),
        quest::RewardModel::Unsupported { raw, .. } => lemma_with_new_id(raw, id),
        _ => {},
    }
}

/// Each copy holds what its template holds: title, description, size, shape, icon, settings and
/// all that is only kept. It has as many dependencies, tasks and rewards. It stands at the place
/// that was given for it, or else at that of its template.
pub proof fn law_copies_hold_what_templates_hold(
    templates: Seq<quest::QuestModel>,
    positions: Seq<(Number, Number)>,
    state: u64,
    j: int,
)
    requires
        0 <= j < templates.len(),
    ensures
        ({
            let copies = duplicate::all_copied(templates, positions, state);
            let copy = copies[j];
            let template = templates[j];
            &&& copies.len() == templates.len()
            &&& copy.title == template.title
            &&& copy.description == template.description
            &&& copy.description_raw == template.description_raw
            &&& copy.size == template.size
            &&& copy.shape == template.shape
            &&& copy.icon == template.icon
            &&& copy.icon_raw == template.icon_raw
            &&& copy.settings == template.settings
            &&& copy.extra == template.extra
            &&& copy.dependencies.len() == template.dependencies.len()
            &&& copy.tasks.len() == template.tasks.len()
            &&& copy.rewards.len() == template.rewards.len()
            &&& j < positions.len() ==> copy.x == positions[j].0@ && copy.y == positions[j].1@
            &&& j >= positions.len() ==> copy.x == template.x && copy.y == template.y
        }),
{
}

/// Each task and reward of a copy is that of its template with an id of its own, which is drawn
/// after those of the quests: `starts` are the numbers of ids drawn before the entries of each
/// copy, and no id is drawn for two entries.
pub proof fn law_copied_entries_have_drawn_ids(
    templates: Seq<quest::QuestModel>,
    positions: Seq<(Number, Number)>,
    state: u64,
) -> (starts: Seq<nat>)
    requires
        forall|j: int, i: int|
            #![trigger templates[j].tasks[i]]
            0 <= j < templates.len() && 0 <= i < templates[j].tasks.len() ==> task_is_sound(
                templates[j].tasks[i],
            ),
        forall|j: int, i: int|
            #![trigger templates[j].rewards[i]]
            0 <= j < templates.len() && 0 <= i < templates[j].rewards.len() ==> reward_is_sound(
                templates[j].rewards[i],
            ),
    ensures
        starts.len() == templates.len(),
        forall|j: int| 0 <= j < starts.len() ==> #[trigger] starts[j] >= templates.len(),
        forall|j: int, k: int|
            #![trigger starts[j], starts[k]]
            0 <= j < k < starts.len() ==> starts[j] + templates[j].tasks.len()
                + templates[j].rewards.len() <= starts[k],
        ({
            let copies = duplicate::all_copied(templates, positions, state);
            &&& forall|j: int, i: int|
                #![trigger copies[j].tasks[i]]
                0 <= j < templates.len() && 0 <= i < templates[j].tasks.len() ==> task_has_new_id(
                    copies[j].tasks[i],
                    templates[j].tasks[i],
                    naming::nth_id(state, (starts[j] + i + 1) as nat),
                )
            &&& forall|j: int, i: int|
                #![trigger copies[j].rewards[i]]
                0 <= j < templates.len() && 0 <= i < templates[j].rewards.len()
                    ==> reward_has_new_id(
                    copies[j].rewards[i],
                    templates[j].rewards[i],
                    naming::nth_id(state, (starts[j] + templates[j].tasks.len() + i + 1) as nat),
                )
        }),
{
    let n = templates.len();
    let starts = Seq::new(n, |j: int| n + duplicate::ids_taken(templates.take(j)));
    let copies = duplicate::all_copied(templates, positions, state);
    assert forall|j: int, k: int| #![trigger starts[j], starts[k]] 0 <= j < k < n implies starts[j]
        + templates[j].tasks.len() + templates[j].rewards.len() <= starts[k] by {
        lemma_ids_taken(templates, j, k);
    }
    assert forall|j: int, i: int|
        #![trigger copies[j].tasks[i]]
        0 <= j < n && 0 <= i < templates[j].tasks.len() implies task_has_new_id(
        copies[j].tasks[i],
        templates[j].tasks[i],
        naming::nth_id(state, (starts[j] + i + 1) as nat),
    ) by {
        naming::lemma_state_after_sum(state, starts[j], (i + 1) as nat);
        law_assigned_task_id(
            templates[j].tasks[i],
            naming::nth_id(state, (starts[j] + i + 1) as nat),
        );
    }
    assert forall|j: int, i: int|
        #![trigger copies[j].rewards[i]]
        0 <= j < n && 0 <= i < templates[j].rewards.len() implies reward_has_new_id(
        copies[j].rewards[i],
        templates[j].rewards[i],
        naming::nth_id(state, (starts[j] + templates[j].tasks.len() + i + 1) as nat),
    ) by {
        let first = (starts[j] + templates[j].tasks.len()) as nat;
        naming::lemma_state_after_sum(state, starts[j], templates[j].tasks.len());
        naming::lemma_state_after_sum(state, first, (i + 1) as nat);
        law_assigned_reward_id(
            templates[j].rewards[i],
            naming::nth_id(state, (first + i + 1) as nat),
        );
    }
    starts
}

proof fn lemma_ids_taken(templates: Seq<quest::QuestModel>, j: int, k: int)
    requires
        0 <= j < k <= templates.len(),
    ensures
        duplicate::ids_taken(templates.take(j)) + templates[j].tasks.len()
            + templates[j].rewards.len() <= duplicate::ids_taken(templates.take(k)),
    decreases k,
{
    assert(templates.take(k).drop_last() =~= templates.take(k - 1));
    assert(templates.take(k).last() == templates[k - 1]);
    if j < k - 1 {
        lemma_ids_taken(templates, j, k - 1);
    }
}

/// Copying takes the selected quests of the chosen chapter, all of them, in their order and as
/// they are. The book and the selection stay.
pub proof fn law_selected_quests_are_copied(s: SessionModel) -> (places: Seq<int>)
    requires
        s.selected_chapter < s.book.chapters.len(),
    ensures
        ({
            let quests = s.book.chapters[s.selected_chapter as int].quests;
            &&& picks::picks(
                quests,
                |q: quest::QuestModel| table::has_key(s.selected, q.id),
                places,
            )
            &&& session::copied(s).clipboard == Seq::new(
                places.len(),
                |j: int| quests[places[j]],
            )
        }),
        session::copied(s).book == s.book,
        session::copied(s).selected == s.selected,
        session::copied(s).selected_quest == s.selected_quest,
        session::copied(s).id_state == s.id_state,
{
    let quests = s.book.chapters[s.selected_chapter as int].quests;
    let f = |q: quest::QuestModel|
        if table::has_key(s.selected, q.id) {
            Some(q)
        } else {
            None
        };
    lemma_chosen_made(quests, s.selected);
    let places = picks::lemma_made(quests, f);
    picks::lemma_same_wish(
        quests,
        |q: quest::QuestModel| f(q) is Some,
        |q: quest::QuestModel| table::has_key(s.selected, q.id),
        places,
    );
    assert forall|j: int| 0 <= j < places.len() implies quests[#[trigger] places[j]]
        == session::chosen(quests, s.selected)[j] by {
        assert(f(quests[places[j]]) == Some(picks::made(quests, f)[j]));
    }
    assert(session::chosen(quests, s.selected) =~= Seq::new(
        places.len(),
        |j: int| quests[places[j]],
    ));
    places
}

proof fn lemma_chosen_made(quests: Seq<quest::QuestModel>, selected: Seq<(Seq<char>, ())>)
    ensures
        session::chosen(quests, selected) == picks::made(
            quests,
            |q: quest::QuestModel|
                if table::has_key(selected, q.id) {
                    Some(q)
                } else {
                    None
                },
        ),
    decreases quests.len(),
{
    if quests.len() > 0 {
        lemma_chosen_made(quests.drop_last(), selected);
    }
}

/// Pasting puts one copy of each copied quest behind the quests of the chosen chapter, which stay
/// as they are, as do the other chapters and all else in the book. What was copied can be pasted
/// again.
pub proof fn law_pasting_adds_copies(s: SessionModel, positions: Seq<(Number, Number)>)
    requires
        s.selected_chapter < s.book.chapters.len(),
    ensures
        ({
            let after = session::pasted(s, positions);
            let c = s.selected_chapter as int;
            let n = s.book.chapters[c].quests.len() as int;
            &&& differ_in_quests(after.book, s.book)
            &&& after.clipboard == s.clipboard
            &&& after.logs == s.logs
            &&& after.selected_chapter == s.selected_chapter
            &&& after.book.chapters[c].quests.len() == n + s.clipboard.len()
            &&& after.book.chapters[c].quests.take(n) == s.book.chapters[c].quests
            &&& forall|j: int|
                #![trigger s.clipboard[j]]
                0 <= j < s.clipboard.len() ==> {
                    let copy = after.book.chapters[c].quests[n + j];
                    &&& copy.title == s.clipboard[j].title
                    &&& copy.description == s.clipboard[j].description
                    &&& copy.icon == s.clipboard[j].icon
                    &&& copy.size == s.clipboard[j].size
                    &&& copy.shape == s.clipboard[j].shape
                    &&& copy.settings == s.clipboard[j].settings
                    &&& copy.extra == s.clipboard[j].extra
                    &&& copy.tasks.len() == s.clipboard[j].tasks.len()
                    &&& copy.rewards.len() == s.clipboard[j].rewards.len()
                    &&& j < positions.len() ==> copy.x == positions[j].0@ && copy.y
                        == positions[j].1@
                }
            &&& forall|d: int|
                0 <= d < s.book.chapters.len() && d != c ==> #[trigger] after.book.chapters[d]
                    == s.book.chapters[d]
        }),
{
    let c = s.selected_chapter as int;
    let old_quests = s.book.chapters[c].quests;
    let copies = duplicate::all_copied(s.clipboard, positions, s.id_state);
    let after = session::pasted(s, positions);
    if s.clipboard.len() > 0 {
        lemma_selecting_keeps(
            session::unselected(
                SessionModel {
                    book: editor::with_chapters(
                        s.book,
                        s.book.chapters.update(
                            c,
                            editor::with_quests(s.book.chapters[c], old_quests + copies),
                        ),
                    ),
                    id_state: naming::state_after(
                        s.id_state,
                        s.clipboard.len() + duplicate::ids_taken(s.clipboard),
                    ),
                    ..s
                },
            ),
            duplicate::ids_of(copies),
        );
        assert(after.book.chapters[c].quests == old_quests + copies);
    }
    assert(after.book.chapters[c].quests.take(old_quests.len() as int) =~= old_quests);
}

proof fn lemma_selecting_keeps(s: SessionModel, ids: Seq<Seq<char>>)
    ensures
        session::all_selected(s, ids) == (SessionModel {
            selected: session::all_selected(s, ids).selected,
            selected_quest: session::all_selected(s, ids).selected_quest,
            ..s
        }),
        ids.len() > 0 ==> session::all_selected(s, ids).selected_quest == Some(ids.last()),
        ids.len() == 0 ==> session::all_selected(s, ids) == s,
    decreases ids.len(),
{
    if ids.len() > 0 {
        lemma_selecting_keeps(s, ids.drop_last());
    }
}

proof fn lemma_selecting_adds(s: SessionModel, ids: Seq<Seq<char>>)
    requires
        table::ordered(s.selected),
    ensures
        table::ordered(session::all_selected(s, ids).selected),
        forall|id: Seq<char>|
            #[trigger] table::has_key(session::all_selected(s, ids).selected, id) <==> ids.contains(
                id,
            ) || table::has_key(s.selected, id),
    decreases ids.len(),
{
    if ids.len() > 0 {
        let front = ids.drop_last();
        lemma_selecting_adds(s, front);
        let before = session::all_selected(s, front).selected;
        table::lemma_upsert(before, ids.last(), ());
        let after = session::all_selected(s, ids).selected;
        assert forall|id: Seq<char>| #[trigger] table::has_key(after, id) <==> ids.contains(id)
            || table::has_key(s.selected, id) by {
            table::lemma_lookup_some(after, id);
            table::lemma_lookup_some(before, id);
            assert(table::has_key(before, id) <==> front.contains(id) || table::has_key(
                s.selected,
                id,
            ));
            if id == ids.last() {
                assert(ids[ids.len() - 1] == id);
            } else {
                assert(table::lookup(after, id) == table::lookup(before, id));
                if front.contains(id) {
                    let i = choose|i: int| 0 <= i < front.len() && front[i] == id;
                    assert(ids[i] == id);
                }
                if ids.contains(id) {
                    let i = choose|i: int| 0 <= i < ids.len() && ids[i] == id;
                    assert(front[i] == id);
                }
            }
        }
    }
}

/// After pasting, the pasted quests are selected, and no others.
pub proof fn law_pasted_quests_are_selected(
    s: SessionModel,
    positions: Seq<(Number, Number)>,
    id: Seq<char>,
)
    requires
        s.selected_chapter < s.book.chapters.len(),
        s.clipboard.len() > 0,
    ensures
        ({
            let after = session::pasted(s, positions);
            let c = s.selected_chapter as int;
            let n = s.book.chapters[c].quests.len() as int;
            table::has_key(after.selected, id) <==> exists|i: int|
                n <= i < after.book.chapters[c].quests.len()
                    && #[trigger] after.book.chapters[c].quests[i].id == id
        }),
{
    let after = session::pasted(s, positions);
    let c = s.selected_chapter as int;
    let old_quests = s.book.chapters[c].quests;
    let n = old_quests.len() as int;
    let copies = duplicate::all_copied(s.clipboard, positions, s.id_state);
    let placed = session::unselected(
        SessionModel {
            book: editor::with_chapters(
                s.book,
                s.book.chapters.update(
                    c,
                    editor::with_quests(s.book.chapters[c], old_quests + copies),
                ),
            ),
            id_state: naming::state_after(
                s.id_state,
                s.clipboard.len() + duplicate::ids_taken(s.clipboard),
            ),
            ..s
        },
    );
    let ids = duplicate::ids_of(copies);
    lemma_selecting_keeps(placed, ids);
    lemma_selecting_adds(placed, ids);
    assert(after.book.chapters[c].quests == old_quests + copies);
    assert(!table::has_key(placed.selected, id));
    if table::has_key(after.selected, id) {
        assert(ids.contains(id));
        let j = choose|j: int| 0 <= j < ids.len() && ids[j] == id;
        assert(after.book.chapters[c].quests[n + j].id == id);
    }
    if exists|i: int|
        n <= i < after.book.chapters[c].quests.len()
            && #[trigger] after.book.chapters[c].quests[i].id == id {
        let i = choose|i: int|
            n <= i < after.book.chapters[c].quests.len()
                && #[trigger] after.book.chapters[c].quests[i].id == id;
        assert(ids[i - n] == id);
    }
}

// ---------------------------------------------------------------------------
// Selecting
// ---------------------------------------------------------------------------

/// Nothing but the selection differs.
pub open spec fn differ_in_selection(a: SessionModel, b: SessionModel) -> bool {
    a == (SessionModel { selected: a.selected, selected_quest: a.selected_quest, ..b })
}

/// Toggling a quest turns its own selection round and leaves that of every other one. One that
/// becomes selected is the chosen one.
pub proof fn law_toggling_turns_one_round(s: SessionModel, id: Seq<char>, other: Seq<char>)
    requires
        table::ordered(s.selected),
    ensures
        differ_in_selection(session::toggled(s, id), s),
        table::has_key(session::toggled(s, id).selected, id) == !table::has_key(s.selected, id),
        other != id ==> table::has_key(session::toggled(s, id).selected, other)
            == table::has_key(s.selected, other),
        !table::has_key(s.selected, id) ==> session::toggled(s, id).selected_quest == Some(id),
        table::has_key(s.selected, id) ==> session::toggled(s, id).selected_quest != Some(id),
        table::has_key(s.selected, id) && s.selected_quest != Some(id) ==> session::toggled(
            s,
            id,
        ).selected_quest == s.selected_quest,
{
    let after = session::toggled(s, id).selected;
    table::lemma_lookup_some(s.selected, id);
    table::lemma_lookup_some(s.selected, other);
    table::lemma_lookup_some(after, id);
    table::lemma_lookup_some(after, other);
    if table::has_key(s.selected, id) {
        table::lemma_without(s.selected, id);
        if after.len() > 0 {
            assert(after[0].0 != id);
        }
    } else {
        table::lemma_upsert(s.selected, id, ());
    }
}

/// Selecting the quests of an area selects them and, where others are kept, leaves those; the
/// last one is the chosen one.
pub proof fn law_area_is_selected(s: SessionModel, ids: Seq<Seq<char>>, id: Seq<char>)
    requires
        table::ordered(s.selected),
    ensures
        differ_in_selection(session::all_selected(s, ids), s),
        table::has_key(session::all_selected(s, ids).selected, id) <==> ids.contains(id)
            || table::has_key(s.selected, id),
        table::has_key(
            session::all_selected(session::unselected(s), ids).selected,
            id,
        ) <==> ids.contains(id),
        ids.len() > 0 ==> session::all_selected(s, ids).selected_quest == Some(ids.last()),
        ids.len() == 0 ==> session::all_selected(s, ids) == s,
{
    lemma_selecting_keeps(s, ids);
    lemma_selecting_adds(s, ids);
    lemma_selecting_adds(session::unselected(s), ids);
}

/// Selecting one quest alone selects it and no other; selecting none leaves none.
pub proof fn law_one_is_selected(s: SessionModel, id: Seq<char>, other: Seq<char>)
    ensures
        differ_in_selection(session::only_selected(s, id), s),
        differ_in_selection(session::unselected(s), s),
        table::has_key(session::only_selected(s, id).selected, other) <==> other == id,
        session::only_selected(s, id).selected_quest == Some(id),
        !table::has_key(session::unselected(s).selected, other),
        session::unselected(s).selected_quest is None,
{
    let selected = session::only_selected(s, id).selected;
    assert(selected[0].0 == id);
}

/// The chosen quest is the first one of the chosen chapter that has its id.
pub proof fn law_selected_quest_is_found(s: SessionModel)
    ensures
        match session::selected_index(s) {
            Some(i) => {
                &&& s.selected_chapter < s.book.chapters.len()
                &&& 0 <= i < s.book.chapters[s.selected_chapter as int].quests.len()
                &&& s.selected_quest == Some(
                    s.book.chapters[s.selected_chapter as int].quests[i].id,
                )
                &&& forall|k: int|
                    0 <= k < i ==> s.selected_quest != Some(
                        (#[trigger] s.book.chapters[s.selected_chapter as int].quests[k]).id,
                    )
            },
            None => s.selected_chapter < s.book.chapters.len() ==> forall|k: int|
                0 <= k < s.book.chapters[s.selected_chapter as int].quests.len()
                    ==> s.selected_quest != Some(
                    (#[trigger] s.book.chapters[s.selected_chapter as int].quests[k]).id,
                ),
        },
{
    if s.selected_quest is Some && s.selected_chapter < s.book.chapters.len() {
        law_first_quest_is_found(
            s.book.chapters[s.selected_chapter as int].quests,
            s.selected_quest->0,
        );
    }
}

/// A quest is found at the first place where its id stands.
pub proof fn law_first_quest_is_found(quests: Seq<quest::QuestModel>, id: Seq<char>)
    ensures
        match labels::place_in(quests, id, 0) {
            Some(i) => 0 <= i < quests.len() && quests[i].id == id && forall|k: int|
                0 <= k < i ==> (#[trigger] quests[k]).id != id,
            None => forall|k: int| 0 <= k < quests.len() ==> (#[trigger] quests[k]).id != id,
        },
{
    lemma_place_in(quests, id, 0);
}

proof fn lemma_place_in(quests: Seq<quest::QuestModel>, id: Seq<char>, from: int)
    requires
        0 <= from,
    ensures
        match labels::place_in(quests, id, from) {
            Some(i) => from <= i < quests.len() && quests[i].id == id && forall|k: int|
                from <= k < i ==> (#[trigger] quests[k]).id != id,
            None => forall|k: int| from <= k < quests.len() ==> (#[trigger] quests[k]).id != id,
        },
    decreases quests.len() - from,
{
    if from < quests.len() && quests[from].id != id {
        lemma_place_in(quests, id, from + 1);
    }
}

/// A quest is found in the first chapter that holds its id.
pub proof fn law_first_quest_of_book_is_found(chapters: Seq<quest::ChapterModel>, id: Seq<char>)
    ensures
        match labels::quest_place(chapters, id, 0) {
            Some((c, i)) => {
                &&& 0 <= c < chapters.len()
                &&& 0 <= i < chapters[c].quests.len()
                &&& chapters[c].quests[i].id == id
                &&& forall|k: int| 0 <= k < i ==> (#[trigger] chapters[c].quests[k]).id != id
                &&& forall|d: int, k: int|
                    #![trigger chapters[d].quests[k]]
                    0 <= d < c && 0 <= k < chapters[d].quests.len() ==> chapters[d].quests[k].id
                        != id
            },
            None => forall|d: int, k: int|
                #![trigger chapters[d].quests[k]]
                0 <= d < chapters.len() && 0 <= k < chapters[d].quests.len()
                    ==> chapters[d].quests[k].id != id,
        },
{
    lemma_quest_place(chapters, id, 0);
}

proof fn lemma_quest_place(chapters: Seq<quest::ChapterModel>, id: Seq<char>, from: int)
    requires
        0 <= from,
    ensures
        match labels::quest_place(chapters, id, from) {
            Some((c, i)) => {
                &&& from <= c < chapters.len()
                &&& 0 <= i < chapters[c].quests.len()
                &&& chapters[c].quests[i].id == id
                &&& forall|k: int| 0 <= k < i ==> (#[trigger] chapters[c].quests[k]).id != id
                &&& forall|d: int, k: int|
                    #![trigger chapters[d].quests[k]]
                    from <= d < c && 0 <= k < chapters[d].quests.len() ==> chapters[d].quests[k].id
                        != id
            },
            None => forall|d: int, k: int|
                #![trigger chapters[d].quests[k]]
                from <= d < chapters.len() && 0 <= k < chapters[d].quests.len()
                    ==> chapters[d].quests[k].id != id,
        },
    decreases chapters.len() - from,
{
    if from < chapters.len() {
        lemma_place_in(chapters[from].quests, id, 0);
        lemma_quest_place(chapters, id, from + 1);
    }
}

// ---------------------------------------------------------------------------
// Dependencies
// ---------------------------------------------------------------------------

/// Adding a dependency puts it behind the others, where it is not there yet, and changes nothing
/// else in the quest.
pub proof fn law_dependency_is_added(q: quest::QuestModel, id: Seq<char>)
    ensures
        differ_in_dependencies(session::depending(q, id), q),
        session::depending(q, id).dependencies.contains(id),
        q.dependencies.contains(id) ==> session::depending(q, id).dependencies == q.dependencies,
        !q.dependencies.contains(id) ==> session::depending(q, id).dependencies == q.dependencies
            + seq![id],
{
    if !q.dependencies.contains(id) {
        let after = session::depending(q, id).dependencies;
        assert(after[q.dependencies.len() as int] == id);
        assert(after =~= q.dependencies + seq![id]);
    }
}

/// Removing a dependency takes it away, however often it is there, and leaves the others in their
/// order and all else in the quest.
pub proof fn law_dependency_is_removed(q: quest::QuestModel, id: Seq<char>) -> (places: Seq<int>)
    ensures
        differ_in_dependencies(session::not_depending(q, id), q),
        picks::picks(q.dependencies, |d: Seq<char>| d != id, places),
        session::not_depending(q, id).dependencies == Seq::new(
            places.len(),
            |j: int| q.dependencies[places[j]],
        ),
        !session::not_depending(q, id).dependencies.contains(id),
{
    let places = law_other_ids_stay(q.dependencies, seq![id]);
    assert forall|i: int| 0 <= i < q.dependencies.len() implies !seq![id].contains(
        #[trigger] q.dependencies[i],
    ) == (q.dependencies[i] != id) by {
        assert(seq![id][0] == id);
    }
    picks::lemma_same_wish(
        q.dependencies,
        |d: Seq<char>| !seq![id].contains(d),
        |d: Seq<char>| d != id,
        places,
    );
    session::lemma_ids_left(q.dependencies, seq![id], id);
    assert(seq![id][0] == id);
    places
}

/// A dependency that was added and removed again leaves the quest as it was.
pub proof fn law_added_dependency_can_be_removed(q: quest::QuestModel, id: Seq<char>)
    requires
        !q.dependencies.contains(id),
    ensures
        session::not_depending(session::depending(q, id), id) == q,
{
    let one = seq![id];
    assert(one[0] == id);
    let after = session::depending(q, id).dependencies;
    assert(after.drop_last() =~= q.dependencies);
    assert forall|d: int| 0 <= d < q.dependencies.len() implies !one.contains(
        #[trigger] q.dependencies[d],
    ) by {
        if one.contains(q.dependencies[d]) {
            assert(q.dependencies[d] == id);
        }
    }
    lemma_untouched_ids(q.dependencies, one);
}

/// Putting a quest into its place leaves every other quest, every other chapter and all else.
pub proof fn law_one_quest_is_replaced(
    book: editor::BookModel,
    c: int,
    i: int,
    q: quest::QuestModel,
)
    requires
        0 <= c < book.chapters.len(),
        0 <= i < book.chapters[c].quests.len(),
    ensures
        ({
            let after = session::with_quest(book, c, i, q);
            &&& differ_in_quests(after, book)
            &&& after.chapters[c].quests.len() == book.chapters[c].quests.len()
            &&& after.chapters[c].quests[i] == q
            &&& forall|k: int|
                0 <= k < book.chapters[c].quests.len() && k != i
                    ==> #[trigger] after.chapters[c].quests[k] == book.chapters[c].quests[k]
            &&& forall|d: int|
                0 <= d < book.chapters.len() && d != c ==> #[trigger] after.chapters[d]
                    == book.chapters[d]
        }),
{
}

/// The quest `from` is `to`, or depends on it directly or through others.
pub open spec fn leads_to(book: editor::BookModel, from: Seq<char>, to: Seq<char>) -> bool {
    exists|chain: Seq<Seq<char>>| #[trigger]
        diagnostics::is_chain(diagnostics::book_table(book), chain) && chain[0] == from
            && chain.last() == to
}

proof fn lemma_refused(book: editor::BookModel, quest_id: Seq<char>, dependency_id: Seq<char>)
    requires
        quest_id != dependency_id,
    ensures
        leads_to(book, dependency_id, quest_id) <==> diagnostics::closed_cycle(
            diagnostics::book_table(book),
            quest_id,
            dependency_id,
        ) is Some,
{
    let quests = diagnostics::quests_of(book.chapters);
    diagnostics::law_new_dependency_cycle(quests, quest_id, dependency_id);
    match diagnostics::closed_cycle(diagnostics::book_table(book), quest_id, dependency_id) {
        Some(ids) => {
            let chain = ids.skip(1);
            assert(diagnostics::is_chain(diagnostics::book_table(book), chain));
            assert(chain[0] == dependency_id);
            assert(chain.last() == quest_id);
        },
        None => {},
    }
}

/// The first click with the connecting tool marks the quest and links nothing; the second one
/// ends the connection. It links nothing where it meets the same quest.
pub proof fn law_connection_begins_and_ends(s: SessionModel, id: Seq<char>, elapsed: u64)
    ensures
        s.connection_start is None ==> {
            let after = session::connected(s, id, elapsed);
            after.connection_start == Some(id) && after.book == s.book && after.logs == s.logs
                && after.selected_quest == Some(id)
        },
        s.connection_start is Some ==> session::connected(s, id, elapsed).connection_start is None,
        s.connection_start == Some(id) ==> session::connected(s, id, elapsed).book == s.book
            && session::connected(s, id, elapsed).logs == s.logs,
{
}

/// The second click makes the quest that it meets, where it stands in the chosen chapter, depend on
/// the marked one, unless the marked one depends on it already, directly or through others; either
/// way no other quest and nothing else in the book changes. What is refused is told in the log,
/// which is then shown.
pub proof fn law_connection_links_two_quests(s: SessionModel, id: Seq<char>, elapsed: u64)
    requires
        s.connection_start is Some,
        s.connection_start != Some(id),
        s.selected_chapter < s.book.chapters.len(),
    ensures
        ({
            let after = session::connected(s, id, elapsed);
            let c = s.selected_chapter as int;
            let before = s.book.chapters[c].quests;
            let start = s.connection_start->0;
            if leads_to(s.book, start, id) {
                &&& after.book == s.book
                &&& after.right_tab == session::RightTab::Logs
                &&& after.logs.len() > 0
                &&& after.logs.last().level == session::LogLevel::Warning
                &&& after.logs.last().elapsed == elapsed
            } else {
                &&& after.logs == s.logs
                &&& after.selected_quest == Some(id)
                &&& differ_in_quests(after.book, s.book)
                &&& after.book.chapters[c].quests.len() == before.len()
                &&& forall|k: int|
                    #![trigger before[k]]
                    0 <= k < before.len() ==> {
                        let first = before[k].id == id && forall|m: int|
                            0 <= m < k ==> (#[trigger] before[m]).id != id;
                        if first {
                            &&& differ_in_dependencies(after.book.chapters[c].quests[k], before[k])
                            &&& after.book.chapters[c].quests[k].dependencies.contains(start)
                        } else {
                            after.book.chapters[c].quests[k] == before[k]
                        }
                    }
                &&& forall|d: int|
                    0 <= d < s.book.chapters.len() && d != c ==> #[trigger] after.book.chapters[d]
                        == s.book.chapters[d]
            }
        }),
{
    let c = s.selected_chapter as int;
    let before = s.book.chapters[c].quests;
    let start = s.connection_start->0;
    law_first_quest_is_found(before, id);
    lemma_refused(s.book, id, start);
    match labels::place_in(before, id, 0) {
        Some(i) => {
            law_dependency_is_added(before[i], start);
            law_one_quest_is_replaced(s.book, c, i, session::depending(before[i], start));
        },
        None => {},
    }
}

/// Switching a dependency on or off touches that dependency of that quest alone. Switching one on
/// is refused where it is the quest itself or depends on it already; that is told in the log and
/// leaves the book as it is.
pub proof fn law_switching_touches_one_dependency(
    s: SessionModel,
    c: int,
    i: int,
    id: Seq<char>,
    enabled: bool,
    elapsed: u64,
    other: Seq<char>,
)
    requires
        0 <= c < s.book.chapters.len(),
        0 <= i < s.book.chapters[c].quests.len(),
        other != id,
    ensures
        ({
            let after = session::switched(s, c, i, id, enabled, elapsed);
            let before = s.book.chapters[c].quests;
            if enabled && (before[i].id == id || leads_to(s.book, id, before[i].id)) {
                &&& after.book == s.book
                &&& after.right_tab == session::RightTab::Logs
                &&& after.logs.len() > 0
                &&& after.logs.last().level == session::LogLevel::Warning
            } else {
                &&& after.logs == s.logs
                &&& after.status == s.status
                &&& differ_in_quests(after.book, s.book)
                &&& after.book.chapters[c].quests.len() == before.len()
                &&& differ_in_dependencies(after.book.chapters[c].quests[i], before[i])
                &&& after.book.chapters[c].quests[i].dependencies.contains(id) == enabled
                &&& after.book.chapters[c].quests[i].dependencies.contains(other)
                    == before[i].dependencies.contains(other)
                &&& forall|k: int|
                    0 <= k < before.len() && k != i ==> #[trigger] after.book.chapters[c].quests[k]
                        == before[k]
                &&& forall|d: int|
                    0 <= d < s.book.chapters.len() && d != c ==> #[trigger] after.book.chapters[d]
                        == s.book.chapters[d]
            }
        }),
{
    let q = s.book.chapters[c].quests[i];
    if q.id != id {
        lemma_refused(s.book, q.id, id);
    }
    law_dependency_is_added(q, id);
    let places = law_dependency_is_removed(q, id);
    law_one_quest_is_replaced(s.book, c, i, session::depending(q, id));
    law_one_quest_is_replaced(s.book, c, i, session::not_depending(q, id));
    session::lemma_ids_left(q.dependencies, seq![id], other);
    assert(seq![id][0] == id);
    if seq![id].contains(other) {
        assert(other == id);
    }
    if !q.dependencies.contains(id) {
        let more = q.dependencies + seq![id];
        if q.dependencies.contains(other) {
            let k = choose|k: int| 0 <= k < q.dependencies.len() && q.dependencies[k] == other;
            assert(more[k] == other);
        }
        if more.contains(other) {
            let k = choose|k: int| 0 <= k < more.len() && more[k] == other;
            assert(k < q.dependencies.len());
            assert(q.dependencies[k] == other);
        }
    }
}

// ---------------------------------------------------------------------------
// Groups and chapters
// ---------------------------------------------------------------------------

/// Moving a chapter into a group changes the group of the first chapter with that id and nothing
/// else; where there is no such chapter nothing changes at all.
pub proof fn law_one_chapter_is_moved(s: SessionModel, id: Seq<char>, group: Option<Seq<char>>)
    ensures
        ({
            let after = session::regrouped(s, id, group);
            &&& after.book == (editor::BookModel { chapters: after.book.chapters, ..s.book })
            &&& after == (SessionModel { book: after.book, status: after.status, ..s })
            &&& after.book.chapters.len() == s.book.chapters.len()
            &&& forall|k: int|
                #![trigger s.book.chapters[k]]
                0 <= k < s.book.chapters.len() ==> {
                    let first = s.book.chapters[k].id == id && forall|m: int|
                        0 <= m < k ==> (#[trigger] s.book.chapters[m]).id != id;
                    after.book.chapters[k] == if first {
                        (quest::ChapterModel { group, ..s.book.chapters[k] })
                    } else {
                        s.book.chapters[k]
                    }
                }
            &&& (forall|k: int|
                0 <= k < s.book.chapters.len() ==> (#[trigger] s.book.chapters[k]).id != id)
                ==> after == s
        }),
{
    lemma_chapter_place(s.book.chapters, id, 0);
}

proof fn lemma_chapter_place(chapters: Seq<quest::ChapterModel>, id: Seq<char>, from: int)
    requires
        0 <= from,
    ensures
        match session::chapter_place(chapters, id, from) {
            Some(i) => from <= i < chapters.len() && chapters[i].id == id && forall|k: int|
                from <= k < i ==> (#[trigger] chapters[k]).id != id,
            None => forall|k: int| from <= k < chapters.len() ==> (#[trigger] chapters[k]).id != id,
        },
    decreases chapters.len() - from,
{
    if from < chapters.len() && chapters[from].id != id {
        lemma_chapter_place(chapters, id, from + 1);
    }
}

proof fn lemma_grouped_place(chapters: Seq<quest::ChapterModel>, id: Seq<char>, from: int)
    requires
        0 <= from,
    ensures
        match session::grouped_place(chapters, id, from) {
            Some(i) => from <= i < chapters.len() && chapters[i].group == Some(id) && forall|k: int|
                from <= k < i ==> (#[trigger] chapters[k]).group != Some(id),
            None => forall|k: int|
                from <= k < chapters.len() ==> (#[trigger] chapters[k]).group != Some(id),
        },
    decreases chapters.len() - from,
{
    if from < chapters.len() && chapters[from].group != Some(id) {
        lemma_grouped_place(chapters, id, from + 1);
    }
}

proof fn lemma_groups_made(groups: Seq<quest::GroupModel>, id: Seq<char>)
    ensures
        session::groups_without(groups, id) == picks::made(
            groups,
            |g: quest::GroupModel|
                if g.id == id {
                    None
                } else {
                    Some(g)
                },
        ),
    decreases groups.len(),
{
    if groups.len() > 0 {
        lemma_groups_made(groups.drop_last(), id);
    }
}

/// Removing a group leaves the other groups in their order. The chapters all stay, with all they
/// hold; those of the group belong to no group then, and the others to theirs.
pub proof fn law_removed_group_keeps_its_chapters(book: editor::BookModel, id: Seq<char>) -> (places:
    Seq<int>)
    ensures
        ({
            let after = session::without_group(book, id);
            &&& picks::picks(book.groups, |g: quest::GroupModel| g.id != id, places)
            &&& after.groups == Seq::new(places.len(), |j: int| book.groups[places[j]])
            &&& after.title == book.title
            &&& after.grid_scale == book.grid_scale
            &&& after.preserved_files == book.preserved_files
            &&& after.translations == book.translations
            &&& after.chapters.len() == book.chapters.len()
            &&& forall|c: int|
                #![trigger after.chapters[c]]
                0 <= c < book.chapters.len() ==> {
                    &&& after.chapters[c] == (quest::ChapterModel {
                        group: after.chapters[c].group,
                        ..book.chapters[c]
                    })
                    &&& book.chapters[c].group == Some(id) ==> after.chapters[c].group is None
                    &&& book.chapters[c].group != Some(id) ==> after.chapters[c].group
                        == book.chapters[c].group
                }
        }),
{
    let f = |g: quest::GroupModel|
        if g.id == id {
            None
        } else {
            Some(g)
        };
    lemma_groups_made(book.groups, id);
    let places = picks::lemma_made(book.groups, f);
    picks::lemma_same_wish(
        book.groups,
        |g: quest::GroupModel| f(g) is Some,
        |g: quest::GroupModel| g.id != id,
        places,
    );
    let after = session::without_group(book, id);
    assert forall|j: int| 0 <= j < places.len() implies book.groups[#[trigger] places[j]]
        == after.groups[j] by {
        assert(f(book.groups[places[j]]) == Some(picks::made(book.groups, f)[j]));
    }
    assert(after.groups =~= Seq::new(places.len(), |j: int| book.groups[places[j]]));
    places
}

/// Removing the chosen chapter takes that one away and leaves the others in their order. The last
/// chapter of a book cannot be removed. A chapter is chosen afterwards where one was before.
pub proof fn law_one_chapter_is_removed(s: SessionModel)
    ensures
        ({
            let after = session::chapter_removed(s);
            let n = s.book.chapters.len();
            let c = s.selected_chapter as int;
            if n > 1 && c < n {
                &&& after.book == (editor::BookModel { chapters: after.book.chapters, ..s.book })
                &&& after.book.chapters == s.book.chapters.take(c) + s.book.chapters.skip(c + 1)
                &&& after.selected_chapter < after.book.chapters.len()
                &&& c < n - 1 ==> after.selected_chapter == c
                &&& c == n - 1 ==> after.selected_chapter == n - 2
                &&& after.selected_quest is None
                &&& after.selected.len() == 0
                &&& after.clipboard == s.clipboard
                &&& after.logs == s.logs
            } else {
                after == s
            }
        }),
{
    let n = s.book.chapters.len();
    let c = s.selected_chapter as int;
    if n > 1 && c < n {
        assert(s.book.chapters.remove(c) =~= s.book.chapters.take(c) + s.book.chapters.skip(
            c + 1,
        ));
    }
}

/// A group is named by the first one that has its id; a chapter of no group, or of one that is
/// not there, is said to have none.
pub proof fn law_group_is_named(groups: Seq<quest::GroupModel>, id: Seq<char>)
    ensures
        search::title_of_group(groups, None) == "Без группы"@,
        (forall|i: int| 0 <= i < groups.len() ==> (#[trigger] groups[i]).id != id)
            ==> search::title_of_group(groups, Some(id)) == "Без группы"@ && search::group_title(
            groups,
            id,
            0,
        ) is None,
        forall|i: int|
            #![trigger groups[i]]
            0 <= i < groups.len() && groups[i].id == id && (forall|k: int|
                0 <= k < i ==> (#[trigger] groups[k]).id != id) ==> search::title_of_group(
                groups,
                Some(id),
            ) == groups[i].title && search::group_title(groups, id, 0) == Some(groups[i].title),
{
    lemma_group_title(groups, id, 0);
}

proof fn lemma_group_title(groups: Seq<quest::GroupModel>, id: Seq<char>, from: int)
    requires
        0 <= from,
    ensures
        (forall|i: int| from <= i < groups.len() ==> (#[trigger] groups[i]).id != id)
            ==> search::group_title(groups, id, from) is None,
        forall|i: int|
            #![trigger groups[i]]
            from <= i < groups.len() && groups[i].id == id && (forall|k: int|
                from <= k < i ==> (#[trigger] groups[k]).id != id) ==> search::group_title(
                groups,
                id,
                from,
            ) == Some(groups[i].title),
    decreases groups.len() - from,
{
    if from < groups.len() {
        lemma_group_title(groups, id, from + 1);
        if groups[from].id == id {
            assert forall|i: int|
                #![trigger groups[i]]
                from <= i < groups.len() && groups[i].id == id && (forall|k: int|
                    from <= k < i ==> (#[trigger] groups[k]).id != id) implies i == from by {
                if i != from {
                    assert(groups[from].id != id);
                }
            }
        }
    }
}

// ---------------------------------------------------------------------------
// Opening what was found, and going back
// ---------------------------------------------------------------------------

/// Opening a hit shows what it stands for: a quest is chosen in its chapter, a chapter is chosen,
/// and of a group its first chapter. The book stays as it is. A group without chapters changes
/// nothing.
pub proof fn law_hit_is_opened(s: SessionModel, target: search::TargetModel)
    ensures
        ({
            let after = session::opened(s, target);
            &&& after.book == s.book
            &&& after.clipboard == s.clipboard
            &&& after.logs == s.logs
            &&& after.status == s.status
            &&& match target {
                search::TargetModel::Quest(c, id) => {
                    &&& after.right_tab == session::RightTab::Inspector
                    &&& after.selected_chapter == c as usize
                    &&& after.selected_quest == Some(id)
                    &&& forall|other: Seq<char>|
                        #[trigger] table::has_key(after.selected, other) <==> other == id
                },
                search::TargetModel::Chapter(c) => {
                    &&& after.right_tab == session::RightTab::Inspector
                    &&& after.selected_chapter == c as usize
                    &&& after.selected_quest is None
                    &&& after.selected.len() == 0
                },
                search::TargetModel::Group(id) => {
                    &&& (forall|k: int|
                        0 <= k < s.book.chapters.len() ==> (#[trigger] s.book.chapters[k]).group
                            != Some(id)) ==> after == s
                    &&& forall|k: int|
                        #![trigger s.book.chapters[k]]
                        0 <= k < s.book.chapters.len() && s.book.chapters[k].group == Some(id) && (
                        forall|m: int|
                            0 <= m < k ==> (#[trigger] s.book.chapters[m]).group != Some(id)) ==> {
                            &&& after.right_tab == session::RightTab::Inspector
                            &&& after.selected_chapter == k as usize
                            &&& after.selected_quest is None
                            &&& after.selected.len() == 0
                        }
                },
            }
        }),
{
    match target {
        search::TargetModel::Quest(c, id) => {
            let after = session::opened(s, target);
            assert(after.selected[0].0 == id);
        },
        search::TargetModel::Chapter(c) => {},
        search::TargetModel::Group(id) => {
            lemma_grouped_place(s.book.chapters, id, 0);
        },
    }
}

/// The place of an opened quest is that of the first one with its id in the chapter of the hit.
pub proof fn law_opened_quest_is_found(s: SessionModel, c: int, id: Seq<char>)
    ensures
        match session::opened_quest(s, search::TargetModel::Quest(c, id)) {
            Some((d, i)) => {
                &&& d == c
                &&& 0 <= c < s.book.chapters.len()
                &&& 0 <= i < s.book.chapters[c].quests.len()
                &&& s.book.chapters[c].quests[i].id == id
                &&& forall|k: int|
                    0 <= k < i ==> (#[trigger] s.book.chapters[c].quests[k]).id != id
            },
            None => 0 <= c < s.book.chapters.len() ==> forall|k: int|
                0 <= k < s.book.chapters[c].quests.len()
                    ==> (#[trigger] s.book.chapters[c].quests[k]).id != id,
        },
        session::opened_quest(s, search::TargetModel::Chapter(c)) is None,
        session::opened_quest(s, search::TargetModel::Group(id)) is None,
{
    if 0 <= c < s.book.chapters.len() {
        law_first_quest_is_found(s.book.chapters[c].quests, id);
    }
}

/// Going back finds the language, the chapter and the quest again where they are there: else the
/// language stays, the first chapter is chosen, and no quest. Nothing else in the book changes.
pub proof fn law_session_is_restored(
    s: SessionModel,
    locale: Seq<char>,
    chapter: Seq<char>,
    quest: Seq<char>,
)
    ensures
        ({
            let after = session::restored(s, locale, Some(chapter), Some(quest));
            &&& after.book.chapters == s.book.chapters
            &&& after.book.groups == s.book.groups
            &&& after.book.title == s.book.title
            &&& after.book.grid_scale == s.book.grid_scale
            &&& after.book.preserved_files == s.book.preserved_files
            &&& after.book.translations.languages == s.book.translations.languages
            &&& after.clipboard == s.clipboard
            &&& after.logs == s.logs
            &&& after.id_state == s.id_state
            &&& after.book.translations.active_locale == if table::has_key(
                s.book.translations.languages,
                locale,
            ) {
                locale
            } else {
                s.book.translations.active_locale
            }
            &&& (forall|k: int|
                0 <= k < s.book.chapters.len() ==> (#[trigger] s.book.chapters[k]).id != chapter)
                ==> after.selected_chapter == 0
            &&& forall|k: int|
                #![trigger s.book.chapters[k]]
                0 <= k < s.book.chapters.len() && s.book.chapters[k].id == chapter && (forall|
                    m: int,
                |
                    0 <= m < k ==> (#[trigger] s.book.chapters[m]).id != chapter)
                    ==> after.selected_chapter == k as usize
            &&& after.selected_quest is Some ==> after.selected_quest == Some(quest) && exists|
                i: int,
            |
                0 <= i < s.book.chapters[after.selected_chapter as int].quests.len() && (
                #[trigger] s.book.chapters[after.selected_chapter as int].quests[i]).id == quest
            &&& after.selected_quest is None && after.selected_chapter < s.book.chapters.len()
                ==> forall|i: int|
                0 <= i < s.book.chapters[after.selected_chapter as int].quests.len() ==> (
                #[trigger] s.book.chapters[after.selected_chapter as int].quests[i]).id != quest
        }),
        session::restored(s, locale, None, None).selected_chapter == 0,
        session::restored(s, locale, None, None).selected_quest is None,
        session::restored(s, locale, None, None).selected.len() == 0,
{
    lemma_chapter_place(s.book.chapters, chapter, 0);
    let after = session::restored(s, locale, Some(chapter), Some(quest));
    if after.selected_chapter < s.book.chapters.len() {
        law_first_quest_is_found(s.book.chapters[after.selected_chapter as int].quests, quest);
    }
}

// ---------------------------------------------------------------------------
// Choosing a resource
// ---------------------------------------------------------------------------

/// A chosen resource becomes the icon of the quest, and nothing else changes.
pub proof fn law_icon_is_chosen(q: quest::QuestModel, quest_id: String, resource: Seq<char>)
    ensures
        session::quest_with_resource(
            q,
            session::ResourcePickerTarget::QuestIcon { quest_id },
            resource,
        ) == (quest::QuestModel { icon: resource, ..q }),
{
}

/// A chosen resource becomes the item of the task at the index, where it is a task of an item, or
/// its entity where it is one of killing; other tasks and all else in the quest stay.
pub proof fn law_task_resource_is_chosen(
    q: quest::QuestModel,
    quest_id: String,
    index: usize,
    resource: Seq<char>,
)
    ensures
        ({
            let after = session::quest_with_resource(
                q,
                session::ResourcePickerTarget::TaskItem { quest_id, index },
                resource,
            );
            &&& after == (quest::QuestModel { tasks: after.tasks, ..q })
            &&& after.tasks.len() == q.tasks.len()
            &&& forall|k: int|
                0 <= k < q.tasks.len() && k != index ==> #[trigger] after.tasks[k] == q.tasks[k]
            &&& index < q.tasks.len() ==> match q.tasks[index as int] {
                quest::TaskModel::Item { id, title, item, count, raw } => after.tasks[index as int]
                    == (quest::TaskModel::Item { id, title, item: resource, count, raw }),
                other => after.tasks[index as int] == other,
            }
        }),
        ({
            let after = session::quest_with_resource(
                q,
                session::ResourcePickerTarget::TaskEntity { quest_id, index },
                resource,
            );
            &&& after == (quest::QuestModel { tasks: after.tasks, ..q })
            &&& after.tasks.len() == q.tasks.len()
            &&& forall|k: int|
                0 <= k < q.tasks.len() && k != index ==> #[trigger] after.tasks[k] == q.tasks[k]
            &&& index < q.tasks.len() ==> match q.tasks[index as int] {
                quest::TaskModel::Kill { id, title, entity, count, raw } => after.tasks[
                index as int] == (quest::TaskModel::Kill {
                    id,
                    title,
                    entity: resource,
                    count,
                    raw,
                }),
                other => after.tasks[index as int] == other,
            }
        }),
{
}

/// A chosen resource becomes the item of the reward at the index, where it is one of an item;
/// other rewards and all else in the quest stay.
pub proof fn law_reward_resource_is_chosen(
    q: quest::QuestModel,
    quest_id: String,
    index: usize,
    resource: Seq<char>,
)
    ensures
        ({
            let after = session::quest_with_resource(
                q,
                session::ResourcePickerTarget::RewardItem { quest_id, index },
                resource,
            );
            &&& after == (quest::QuestModel { rewards: after.rewards, ..q })
            &&& after.rewards.len() == q.rewards.len()
            &&& forall|k: int|
                0 <= k < q.rewards.len() && k != index ==> #[trigger] after.rewards[k]
                    == q.rewards[k]
            &&& index < q.rewards.len() ==> match q.rewards[index as int] {
                quest::RewardModel::Item { id, item, count, raw } => after.rewards[index as int]
                    == (quest::RewardModel::Item { id, item: resource, count, raw }),
                other => after.rewards[index as int] == other,
            }
        }),
{
}

// ---------------------------------------------------------------------------
// Counting and telling
// ---------------------------------------------------------------------------

/// The quests of a book are those of its chapters: an empty book has none, and a chapter adds its
/// own, wherever it stands.
pub proof fn law_quests_are_counted(
    a: Seq<quest::ChapterModel>,
    chapter: quest::ChapterModel,
    b: Seq<quest::ChapterModel>,
)
    ensures
        session::quest_count(Seq::empty()) == 0,
        session::quest_count(a + seq![chapter] + b) == session::quest_count(a)
            + chapter.quests.len() + session::quest_count(b),
    decreases b.len(),
{
    let all = a + seq![chapter] + b;
    if b.len() == 0 {
        assert(all.drop_last() =~= a);
    } else {
        law_quests_are_counted(a, chapter, b.drop_last());
        assert(all.drop_last() =~= a + seq![chapter] + b.drop_last());
    }
}

/// The log keeps its newest thousand entries in their order; an older one goes only where there
/// is no room for the new one, which is the last.
pub proof fn law_log_forgets_the_oldest(
    logs: Seq<session::LogModel>,
    entry: session::LogModel,
)
    requires
        logs.len() <= 1000,
    ensures
        ({
            let after = session::log_with(logs, entry);
            &&& after.len() > 0
            &&& after.last() == entry
            &&& logs.len() < 1000 ==> after.drop_last() == logs
            &&& logs.len() == 1000 ==> after.drop_last() == logs.skip(1)
        }),
{
    let after = session::log_with(logs, entry);
    if logs.len() < 1000 {
        assert(after.drop_last() =~= logs);
    } else {
        assert(after.drop_last() =~= logs.skip(1));
    }
}

} // verus!
