//! Copies of quests under new ids.

use crate::editor;
use crate::editor::EditableBook;
use crate::export;
use crate::export::set_scalar;
use crate::naming;
use crate::naming::IdGenerator;
use crate::notation;
use crate::order;
use crate::quest;
use crate::quest::{Number, Quest, Reward, Task};
use crate::snbt::Value;
use crate::table;
use crate::table::TextMap;
use crate::text;
use crate::translation;
use vstd::prelude::*;

verus! {

/// A value that may be missing, with a text in its field `id`.
pub open spec fn raw_with_id(raw: Option<notation::Node>, id: Seq<char>) -> Option<notation::Node> {
    match raw {
        Some(n) => Some(export::with_scalar(n, "id"@, id)),
        None => None,
    }
}

/// The task with another id.
pub open spec fn task_with_id(task: quest::TaskModel, new_id: Seq<char>) -> quest::TaskModel {
    match task {
        quest::TaskModel::Checkmark { id, title, raw } => quest::TaskModel::Checkmark {
            id: new_id,
            title,
            raw: raw_with_id(raw, new_id),
        },
        quest::TaskModel::Item { id, title, item, count, raw } => quest::TaskModel::Item {
            id: new_id,
            title,
            item,
            count,
            raw: raw_with_id(raw, new_id),
        },
        quest::TaskModel::Kill { id, title, entity, count, raw } => quest::TaskModel::Kill {
            id: new_id,
            title,
            entity,
            count,
            raw: raw_with_id(raw, new_id),
        },
        quest::TaskModel::Unsupported { kind, raw } => quest::TaskModel::Unsupported {
            kind,
            raw: export::with_scalar(raw, "id"@, new_id),
        },
    }
}

/// The reward with another id.
pub open spec fn reward_with_id(
    reward: quest::RewardModel,
    new_id: Seq<char>,
) -> quest::RewardModel {
    match reward {
        quest::RewardModel::Xp { id, amount, raw } => quest::RewardModel::Xp {
            id: new_id,
            amount,
            raw: raw_with_id(raw, new_id),
        },
        quest::RewardModel::Item { id, item, count, raw } => quest::RewardModel::Item {
            id: new_id,
            item,
            count,
            raw: raw_with_id(raw, new_id),
        },
        quest::RewardModel::Unsupported { kind, raw } => quest::RewardModel::Unsupported {
            kind,
            raw: export::with_scalar(raw, "id"@, new_id),
        },
    }
}

fn set_raw_id(raw: &mut Option<Value>, id: String)
    ensures
        quest::opt_node(*final(raw)) == raw_with_id(quest::opt_node(*old(raw)), id@),
{
    match raw {
        Some(value) => {
            set_scalar(value, "id", id);
        },
        None => {},
    }
}

/// Gives a task another id.
pub fn assign_task_id(task: &mut Task, id: String)
    ensures
        final(task)@ == task_with_id(old(task)@, id@),
{
    match task {
        Task::Checkmark { id: task_id, raw, .. } => {
            *task_id = id.clone();
            set_raw_id(raw, id);
        },
        Task::Item { id: task_id, raw, .. } => {
            *task_id = id.clone();
            set_raw_id(raw, id);
        },
        Task::Kill { id: task_id, raw, .. } => {
            *task_id = id.clone();
            set_raw_id(raw, id);
        },
        Task::Unsupported { raw, .. } => {
            set_scalar(raw, "id", id);
        },
    }
}

/// Gives a reward another id.
pub fn assign_reward_id(reward: &mut Reward, id: String)
    ensures
        final(reward)@ == reward_with_id(old(reward)@, id@),
{
    match reward {
        Reward::Xp { id: reward_id, raw, .. } => {
            *reward_id = id.clone();
            set_raw_id(raw, id);
        },
        Reward::Item { id: reward_id, raw, .. } => {
            *reward_id = id.clone();
            set_raw_id(raw, id);
        },
        Reward::Unsupported { raw, .. } => {
            set_scalar(raw, "id", id);
        },
    }
}

// ---------------------------------------------------------------------------
// Quests
// ---------------------------------------------------------------------------

/// The new id of each template: every one takes the next id, and where two have the same old id,
/// the later one holds for both.
pub open spec fn new_ids(templates: Seq<quest::QuestModel>, state: u64) -> Seq<
    (Seq<char>, Seq<char>),
>
    decreases templates.len(),
{
    if templates.len() == 0 {
        Seq::empty()
    } else {
        table::upsert(
            new_ids(templates.drop_last(), state),
            templates.last().id,
            naming::nth_id(state, templates.len()),
        )
    }
}

/// The new id in place of an old one, where there is one.
pub open spec fn renamed(ids: Seq<(Seq<char>, Seq<char>)>, id: Seq<char>) -> Seq<char> {
    match table::lookup(ids, id) {
        Some(new_id) => new_id,
        None => id,
    }
}

/// The dependencies with new ids.
pub open spec fn all_renamed(
    ids: Seq<(Seq<char>, Seq<char>)>,
    dependencies: Seq<Seq<char>>,
) -> Seq<Seq<char>> {
    Seq::new(dependencies.len(), |i: int| renamed(ids, dependencies[i]))
}

/// The tasks with the next ids.
pub open spec fn tasks_renewed(tasks: Seq<quest::TaskModel>, state: u64) -> Seq<quest::TaskModel> {
    Seq::new(
        tasks.len(),
        |i: int| task_with_id(tasks[i], naming::nth_id(state, (i + 1) as nat)),
    )
}

/// The rewards with the next ids.
pub open spec fn rewards_renewed(rewards: Seq<quest::RewardModel>, state: u64) -> Seq<
    quest::RewardModel,
> {
    Seq::new(
        rewards.len(),
        |i: int| reward_with_id(rewards[i], naming::nth_id(state, (i + 1) as nat)),
    )
}

/// The copy of a quest at a place; its tasks take the next ids, then its rewards.
pub open spec fn copied(
    template: quest::QuestModel,
    position: Option<(quest::NumberModel, quest::NumberModel)>,
    ids: Seq<(Seq<char>, Seq<char>)>,
    state: u64,
) -> quest::QuestModel {
    quest::QuestModel {
        id: renamed(ids, template.id),
        x: match position {
            Some(p) => p.0,
            None => template.x,
        },
        y: match position {
            Some(p) => p.1,
            None => template.y,
        },
        dependencies: all_renamed(ids, template.dependencies),
        tasks: tasks_renewed(template.tasks, state),
        rewards: rewards_renewed(
            template.rewards,
            naming::state_after(state, template.tasks.len()),
        ),
        ..template
    }
}

/// How many ids the tasks and rewards of quests take.
pub open spec fn ids_taken(templates: Seq<quest::QuestModel>) -> nat
    decreases templates.len(),
{
    if templates.len() == 0 {
        0
    } else {
        ids_taken(templates.drop_last()) + templates.last().tasks.len()
            + templates.last().rewards.len()
    }
}

/// The places, where they are given.
pub open spec fn place_at(positions: Seq<(Number, Number)>, i: int) -> Option<
    (quest::NumberModel, quest::NumberModel),
> {
    if 0 <= i < positions.len() {
        Some((positions[i].0@, positions[i].1@))
    } else {
        None
    }
}

/// The copies of quests.
pub open spec fn all_copied(
    templates: Seq<quest::QuestModel>,
    positions: Seq<(Number, Number)>,
    state: u64,
) -> Seq<quest::QuestModel> {
    let ids = new_ids(templates, state);
    Seq::new(
        templates.len(),
        |i: int|
            copied(
                templates[i],
                place_at(positions, i),
                ids,
                naming::state_after(state, templates.len() + ids_taken(templates.take(i))),
            ),
    )
}

/// The ids of quests.
pub open spec fn ids_of(quests: Seq<quest::QuestModel>) -> Seq<Seq<char>> {
    Seq::new(quests.len(), |i: int| quests[i].id)
}

fn draw_ids(templates: &Vec<Quest>, ids: &mut IdGenerator) -> (r: TextMap<String>)
    ensures
        translation::words(r) == new_ids(order::views(templates@), old(ids).state),
        final(ids).state == naming::state_after(old(ids).state, templates@.len()),
{
    let ghost start = ids.state;
    let ghost all = order::views(templates@);
    let mut r: TextMap<String> = TextMap::new();
    assert(translation::words(r) =~= Seq::empty());
    assert(all.take(0) =~= Seq::empty());
    let mut i: usize = 0;
    while i < templates.len()
        invariant
            i <= templates@.len(),
            all == order::views(templates@),
            ids.state == naming::state_after(start, i as nat),
            translation::words(r) == new_ids(all.take(i as int), start),
        decreases templates@.len() - i,
    {
        proof {
            assert(all.take(i + 1).drop_last() =~= all.take(i as int));
            assert(all.take(i + 1).last() == templates@[i as int]@);
            table::lemma_mapped(r@, |s: String| s@, templates@[i as int].id@);
        }
        let id = ids.next_id();
        r.insert(templates[i].id.clone(), id);
        i += 1;
    }
    assert(all.take(i as int) =~= all);
    r
}

fn rename(map: &TextMap<String>, id: &str) -> (r: String)
    ensures
        r@ == renamed(translation::words(*map), id@),
{
    proof {
        table::lemma_mapped(map@, |s: String| s@, id@);
    }
    match map.get(id) {
        Some(new_id) => new_id.clone(),
        None => id.to_owned(),
    }
}

fn rename_all(map: &TextMap<String>, dependencies: &Vec<String>) -> (r: Vec<String>)
    ensures
        text::texts(r@) == all_renamed(translation::words(*map), text::texts(dependencies@)),
{
    let mut r: Vec<String> = Vec::new();
    let mut i: usize = 0;
    while i < dependencies.len()
        invariant
            i <= dependencies@.len(),
            r@.len() == i,
            forall|j: int|
                0 <= j < i ==> (#[trigger] r@[j])@ == renamed(
                    translation::words(*map),
                    dependencies@[j]@,
                ),
        decreases dependencies@.len() - i,
    {
        r.push(rename(map, dependencies[i].as_str()));
        i += 1;
    }
    assert(text::texts(r@) =~= all_renamed(
        translation::words(*map),
        text::texts(dependencies@),
    ));
    r
}

fn renew_tasks(tasks: &Vec<Task>, ids: &mut IdGenerator) -> (r: Vec<Task>)
    ensures
        order::views(r@) == tasks_renewed(order::views(tasks@), old(ids).state),
        final(ids).state == naming::state_after(old(ids).state, tasks@.len()),
{
    let ghost start = ids.state;
    let mut r: Vec<Task> = Vec::new();
    let mut i: usize = 0;
    while i < tasks.len()
        invariant
            i <= tasks@.len(),
            r@.len() == i,
            ids.state == naming::state_after(start, i as nat),
            forall|j: int|
                0 <= j < i ==> (#[trigger] r@[j])@ == task_with_id(
                    tasks@[j]@,
                    naming::nth_id(start, (j + 1) as nat),
                ),
        decreases tasks@.len() - i,
    {
        let mut task = tasks[i].copy();
        let id = ids.next_id();
        assign_task_id(&mut task, id);
        r.push(task);
        i += 1;
    }
    assert(order::views(r@) =~= tasks_renewed(order::views(tasks@), start));
    r
}

fn renew_rewards(rewards: &Vec<Reward>, ids: &mut IdGenerator) -> (r: Vec<Reward>)
    ensures
        order::views(r@) == rewards_renewed(order::views(rewards@), old(ids).state),
        final(ids).state == naming::state_after(old(ids).state, rewards@.len()),
{
    let ghost start = ids.state;
    let mut r: Vec<Reward> = Vec::new();
    let mut i: usize = 0;
    while i < rewards.len()
        invariant
            i <= rewards@.len(),
            r@.len() == i,
            ids.state == naming::state_after(start, i as nat),
            forall|j: int|
                0 <= j < i ==> (#[trigger] r@[j])@ == reward_with_id(
                    rewards@[j]@,
                    naming::nth_id(start, (j + 1) as nat),
                ),
        decreases rewards@.len() - i,
    {
        let mut reward = rewards[i].copy();
        let id = ids.next_id();
        assign_reward_id(&mut reward, id);
        r.push(reward);
        i += 1;
    }
    assert(order::views(r@) =~= rewards_renewed(order::views(rewards@), start));
    r
}

fn copy_quest(
    template: &Quest,
    position: Option<&(Number, Number)>,
    map: &TextMap<String>,
    ids: &mut IdGenerator,
) -> (r: Quest)
    ensures
        r@ == copied(
            template@,
            match position {
                Some(p) => Some((p.0@, p.1@)),
                None => None,
            },
            translation::words(*map),
            old(ids).state,
        ),
        final(ids).state == naming::state_after(
            old(ids).state,
            template@.tasks.len() + template@.rewards.len(),
        ),
{
    let mut quest = template.copy();
    quest.id = rename(map, template.id.as_str());
    match position {
        Some(p) => {
            quest.x = p.0.copy();
            quest.y = p.1.copy();
        },
        None => {},
    }
    quest.dependencies = rename_all(map, &template.dependencies);
    proof {
        naming::lemma_state_after_sum(ids.state, template@.tasks.len(), template@.rewards.len());
    }
    quest.tasks = renew_tasks(&template.tasks, ids);
    quest.rewards = renew_rewards(&template.rewards, ids);
    quest
}

impl EditableBook {
    /// Adds copies of quests to a chapter, if there is such a chapter; the ids of the copies. The
    /// copies stand at the given places, and what depended on a template depends on its copy.
    pub fn duplicate_quests(
        &mut self,
        chapter_index: usize,
        templates: &Vec<Quest>,
        positions: &Vec<(Number, Number)>,
        ids: &mut IdGenerator,
    ) -> (r: Vec<String>)
        ensures
            if chapter_index < old(self)@.chapters.len() {
                let chapter = old(self)@.chapters[chapter_index as int];
                let copies = all_copied(order::views(templates@), positions@, old(ids).state);
                &&& text::texts(r@) == ids_of(copies)
                &&& final(self)@ == editor::with_chapters(
                    old(self)@,
                    old(self)@.chapters.update(
                        chapter_index as int,
                        editor::with_quests(chapter, chapter.quests + copies),
                    ),
                )
                &&& final(ids).state == naming::state_after(
                    old(ids).state,
                    templates@.len() + ids_taken(order::views(templates@)),
                )
            } else {
                r@.len() == 0 && *final(self) == *old(self) && *final(ids) == *old(ids)
            },
    {
        if chapter_index >= self.chapters.len() {
            return Vec::new();
        }
        let ghost start = ids.state;
        let ghost all = order::views(templates@);
        let ghost copies = all_copied(all, positions@, start);
        let ghost at = chapter_index as int;
        let ghost chapter = self@.chapters[at];
        let map = draw_ids(templates, ids);
        let mut r: Vec<String> = Vec::new();
        let mut i: usize = 0;
        proof {
            assert(all.take(0) =~= Seq::empty());
            assert(chapter.quests + copies.take(0) =~= chapter.quests);
            assert(self@.chapters.update(at, chapter) =~= self@.chapters);
        }
        while i < templates.len()
            invariant
                i <= templates@.len(),
                r@.len() == i,
                all == order::views(templates@),
                copies == all_copied(all, positions@, start),
                translation::words(map) == new_ids(all, start),
                0 <= at == chapter_index < old(self)@.chapters.len(),
                chapter == old(self)@.chapters[at],
                self@ == editor::with_chapters(
                    old(self)@,
                    old(self)@.chapters.update(
                        at,
                        editor::with_quests(chapter, chapter.quests + copies.take(i as int)),
                    ),
                ),
                ids.state == naming::state_after(
                    start,
                    all.len() + ids_taken(all.take(i as int)),
                ),
                forall|j: int| 0 <= j < i ==> (#[trigger] r@[j])@ == copies[j].id,
            decreases templates@.len() - i,
        {
            let position: Option<&(Number, Number)> = if i < positions.len() {
                Some(&positions[i])
            } else {
                None
            };
            proof {
                assert(all.take(i + 1).drop_last() =~= all.take(i as int));
                assert(all.take(i + 1).last() == all[i as int]);
                assert(all[i as int] == templates@[i as int]@);
                naming::lemma_state_after_sum(
                    start,
                    all.len() + ids_taken(all.take(i as int)),
                    all[i as int].tasks.len() + all[i as int].rewards.len(),
                );
            }
            let quest = copy_quest(&templates[i], position, &map, ids);
            proof {
                assert(quest@ == copies[i as int]);
                assert((chapter.quests + copies.take(i as int)).push(quest@) =~= chapter.quests
                    + copies.take(i + 1));
            }
            r.push(quest.id.clone());
            self.push_quest(chapter_index, quest);
            proof {
                assert(self@.chapters =~= old(self)@.chapters.update(
                    at,
                    editor::with_quests(chapter, chapter.quests + copies.take(i + 1)),
                ));
            }
            i += 1;
        }
        proof {
            assert(all.take(i as int) =~= all);
            assert(copies.take(i as int) =~= copies);
            assert(text::texts(r@) =~= ids_of(copies));
        }
        r
    }
}

// ---------------------------------------------------------------------------
// Laws
// ---------------------------------------------------------------------------

/// Copies depend on each other as their templates do, and on what is not copied as before.
pub proof fn law_copies_depend_as_templates(
    templates: Seq<quest::QuestModel>,
    positions: Seq<(Number, Number)>,
    state: u64,
    j: int,
    d: int,
)
    requires
        0 <= j < templates.len(),
        0 <= d < templates[j].dependencies.len(),
    ensures
        all_copied(templates, positions, state)[j].dependencies.len()
            == templates[j].dependencies.len(),
        forall|i: int|
            0 <= i < templates.len() && (#[trigger] templates[i]).id
                == templates[j].dependencies[d] ==> all_copied(
                templates,
                positions,
                state,
            )[j].dependencies[d] == all_copied(templates, positions, state)[i].id,
        !ids_of(templates).contains(templates[j].dependencies[d]) ==> all_copied(
            templates,
            positions,
            state,
        )[j].dependencies[d] == templates[j].dependencies[d],
{
    lemma_only_templates_renamed(templates, state, templates[j].dependencies[d]);
}

proof fn lemma_only_templates_renamed(
    templates: Seq<quest::QuestModel>,
    state: u64,
    id: Seq<char>,
)
    ensures
        table::ordered(new_ids(templates, state)),
        !ids_of(templates).contains(id) ==> table::lookup(new_ids(templates, state), id) is None,
        ids_of(templates).contains(id) ==> exists|k: nat|
            1 <= k <= templates.len() && table::lookup(new_ids(templates, state), id) == Some(
                #[trigger] naming::nth_id(state, k),
            ),
    decreases templates.len(),
{
    if templates.len() > 0 {
        let front = templates.drop_last();
        lemma_only_templates_renamed(front, state, id);
        let last = templates.last();
        let given = naming::nth_id(state, templates.len());
        table::lemma_upsert(new_ids(front, state), last.id, given);
        assert(ids_of(templates) =~= ids_of(front).push(last.id));
        if id == last.id {
            assert(ids_of(templates)[templates.len() - 1] == id);
        } else if ids_of(templates).contains(id) {
            let i = choose|i: int| 0 <= i < templates.len() && ids_of(templates)[i] == id;
            assert(ids_of(front)[i] == id);
        } else if ids_of(front).contains(id) {
            let i = choose|i: int| 0 <= i < front.len() && ids_of(front)[i] == id;
            assert(ids_of(templates)[i] == id);
        }
    }
}

/// A template that no later one has the id of gives its copy the id of its step.
proof fn lemma_own_step(templates: Seq<quest::QuestModel>, state: u64, j: int)
    requires
        0 <= j < templates.len(),
        forall|i: int| j < i < templates.len() ==> (#[trigger] templates[i]).id != templates[j].id,
    ensures
        table::lookup(new_ids(templates, state), templates[j].id) == Some(
            naming::nth_id(state, (j + 1) as nat),
        ),
    decreases templates.len(),
{
    let front = templates.drop_last();
    let last = templates.last();
    lemma_only_templates_renamed(front, state, last.id);
    table::lemma_upsert(
        new_ids(front, state),
        last.id,
        naming::nth_id(state, templates.len()),
    );
    if j < templates.len() - 1 {
        assert(templates[templates.len() - 1].id != templates[j].id);
        assert forall|i: int| j < i < front.len() implies (#[trigger] front[i]).id
            != front[j].id by {
            assert(front[i] == templates[i]);
        }
        lemma_own_step(front, state, j);
    }
}

/// Every copy has an id that was drawn for it: that of its own step where no later template has
/// the id of its template, so that copies of different templates have ids of different steps.
pub proof fn law_copies_have_drawn_ids(
    templates: Seq<quest::QuestModel>,
    positions: Seq<(Number, Number)>,
    state: u64,
    j: int,
)
    requires
        0 <= j < templates.len(),
    ensures
        exists|k: nat|
            1 <= k <= templates.len() && all_copied(templates, positions, state)[j].id
                == #[trigger] naming::nth_id(state, k),
        (forall|i: int|
            j < i < templates.len() ==> (#[trigger] templates[i]).id != templates[j].id)
            ==> all_copied(templates, positions, state)[j].id == naming::nth_id(
            state,
            (j + 1) as nat,
        ),
{
    lemma_only_templates_renamed(templates, state, templates[j].id);
    assert(ids_of(templates)[j] == templates[j].id);
    if forall|i: int|
        j < i < templates.len() ==> (#[trigger] templates[i]).id != templates[j].id {
        lemma_own_step(templates, state, j);
    }
}

} // verus!
