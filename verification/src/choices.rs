//! What can be chosen in the panels: quests to depend on, groups, and the chapters of a group.

use crate::compose::holds_text;
use crate::editor::EditableBook;
use crate::labels;
use crate::labels::{dependency_candidate_label, group_display_title};
use crate::order;
use crate::quest;
use crate::text;
use crate::translation;
use vstd::prelude::*;

verus! {

// ---------------------------------------------------------------------------
// Dependencies
// ---------------------------------------------------------------------------

/// A quest that another one can depend on: its id, how it is named, its title as it stands, and
/// whether the other one depends on it.
#[derive(Debug, Clone, PartialEq, Eq)]
pub struct Candidate {
    pub id: String,
    pub label: String,
    pub title: String,
    pub required: bool,
}

/// The mathematical form of a candidate.
pub ghost struct CandidateModel {
    pub id: Seq<char>,
    pub label: Seq<char>,
    pub title: Seq<char>,
    pub required: bool,
}

impl View for Candidate {
    type V = CandidateModel;

    open spec fn view(&self) -> CandidateModel {
        CandidateModel {
            id: self.id@,
            label: self.label@,
            title: self.title@,
            required: self.required,
        }
    }
}

/// The quests that a quest can depend on: all but itself, in their order.
pub open spec fn candidates_of(
    catalog: translation::CatalogModel,
    quests: Seq<quest::QuestModel>,
    q: quest::QuestModel,
) -> Seq<CandidateModel>
    decreases quests.len(),
{
    if quests.len() == 0 {
        Seq::empty()
    } else {
        let before = candidates_of(catalog, quests.drop_last(), q);
        let last = quests.last();
        if last.id == q.id {
            before
        } else {
            before.push(
                CandidateModel {
                    id: last.id,
                    label: labels::candidate_label(catalog, last),
                    title: last.title,
                    required: q.dependencies.contains(last.id),
                },
            )
        }
    }
}

impl EditableBook {
    /// The quests of its chapter that a quest can depend on.
    pub fn dependency_candidates(&self, c: usize, i: usize) -> (r: Vec<Candidate>)
        requires
            c < self.chapters@.len(),
            i < self.chapters@[c as int].quests@.len(),
        ensures
            order::views(r@) == candidates_of(
                self@.translations,
                self@.chapters[c as int].quests,
                self@.chapters[c as int].quests[i as int],
            ),
    {
        let quests = &self.chapters[c].quests;
        let ghost all = order::views(quests@);
        let ghost q = quests@[i as int]@;
        let mut r: Vec<Candidate> = Vec::new();
        let mut k: usize = 0;
        assert(all.take(0) =~= Seq::empty());
        assert(order::views(r@) =~= Seq::empty());
        while k < quests.len()
            invariant
                k <= quests@.len(),
                i < quests@.len(),
                all == order::views(quests@),
                q == quests@[i as int]@,
                order::views(r@) == candidates_of(self@.translations, all.take(k as int), q),
            decreases quests@.len() - k,
        {
            assert(all.take(k + 1).drop_last() =~= all.take(k as int));
            assert(all.take(k + 1).last() == quests@[k as int]@);
            let quest = &quests[k];
            if !text::same(quest.id.as_str(), quests[i].id.as_str()) {
                let ghost before = order::views(r@);
                let candidate = Candidate {
                    id: quest.id.clone(),
                    label: dependency_candidate_label(&self.translations, quest),
                    title: quest.title.clone(),
                    required: holds_text(&quests[i].dependencies, quest.id.as_str()),
                };
                let ghost model = candidate@;
                r.push(candidate);
                assert(order::views(r@) =~= before.push(model));
            }
            k += 1;
        }
        assert(all.take(k as int) =~= all);
        r
    }
}

// ---------------------------------------------------------------------------
// Groups
// ---------------------------------------------------------------------------

/// A group that a chapter can stand in: its id, how it is named, and its title as it stands.
#[derive(Debug, Clone, PartialEq, Eq)]
pub struct GroupChoice {
    pub id: String,
    pub label: String,
    pub title: String,
}

/// The mathematical form of a choice of a group.
pub ghost struct GroupChoiceModel {
    pub id: Seq<char>,
    pub label: Seq<char>,
    pub title: Seq<char>,
}

impl View for GroupChoice {
    type V = GroupChoiceModel;

    open spec fn view(&self) -> GroupChoiceModel {
        GroupChoiceModel { id: self.id@, label: self.label@, title: self.title@ }
    }
}

/// The groups that a chapter can stand in.
pub open spec fn choices_of(
    catalog: translation::CatalogModel,
    groups: Seq<quest::GroupModel>,
) -> Seq<GroupChoiceModel> {
    Seq::new(
        groups.len(),
        |i: int|
            GroupChoiceModel {
                id: groups[i].id,
                label: translation::shown(catalog, groups[i].title),
                title: groups[i].title,
            },
    )
}

/// How the group of a chapter is named among the choices.
pub open spec fn chosen_label(
    choices: Seq<GroupChoiceModel>,
    group: Option<Seq<char>>,
) -> Seq<char>
    decreases choices.len(),
{
    if choices.len() == 0 {
        "Без группы"@
    } else if group == Some(choices[0].id) {
        choices[0].label
    } else {
        chosen_label(choices.skip(1), group)
    }
}

/// How the group of a chapter is named among the choices; a group that is not among them is none.
pub fn label_of_choice(choices: &Vec<GroupChoice>, group: Option<&str>) -> (r: String)
    ensures
        r@ == chosen_label(order::views(choices@), text::opt_str(group)),
{
    let ghost all = order::views(choices@);
    let id = match group {
        Some(id) => id,
        None => {
            proof {
                lemma_no_choice(all);
            }
            return "Без группы".to_owned();
        },
    };
    let mut i: usize = 0;
    assert(all.skip(0) =~= all);
    while i < choices.len()
        invariant
            i <= choices@.len(),
            all == order::views(choices@),
            text::opt_str(group) == Some(id@),
            chosen_label(all, Some(id@)) == chosen_label(all.skip(i as int), Some(id@)),
        decreases choices@.len() - i,
    {
        assert(all.skip(i as int)[0] == choices@[i as int]@);
        assert(all.skip(i as int).skip(1) =~= all.skip(i + 1));
        if text::same(choices[i].id.as_str(), id) {
            return choices[i].label.clone();
        }
        i += 1;
    }
    "Без группы".to_owned()
}

proof fn lemma_no_choice(choices: Seq<GroupChoiceModel>)
    ensures
        chosen_label(choices, None) == "Без группы"@,
    decreases choices.len(),
{
    if choices.len() > 0 {
        lemma_no_choice(choices.skip(1));
    }
}

/// The places of the chapters of a group, or of those without a group.
pub open spec fn members_of(
    chapters: Seq<quest::ChapterModel>,
    group: Option<Seq<char>>,
) -> Seq<int>
    decreases chapters.len(),
{
    if chapters.len() == 0 {
        Seq::empty()
    } else {
        let before = members_of(chapters.drop_last(), group);
        if chapters.last().group == group {
            before.push(chapters.len() - 1)
        } else {
            before
        }
    }
}

/// The places as integers.
pub open spec fn places(list: Seq<usize>) -> Seq<int> {
    Seq::new(list.len(), |i: int| list[i] as int)
}

fn is_in_group(chapter: &quest::Chapter, group: Option<&str>) -> (r: bool)
    ensures
        r == (chapter@.group == text::opt_str(group)),
{
    match (&chapter.group, group) {
        (Some(present), Some(wanted)) => text::same(present.as_str(), wanted),
        (None, None) => true,
        _ => false,
    }
}

impl EditableBook {
    /// The groups that a chapter can stand in.
    pub fn group_choices(&self) -> (r: Vec<GroupChoice>)
        ensures
            order::views(r@) == choices_of(self@.translations, self@.groups),
    {
        let mut r: Vec<GroupChoice> = Vec::new();
        let mut i: usize = 0;
        while i < self.groups.len()
            invariant
                i <= self.groups@.len(),
                r@.len() == i,
                forall|j: int|
                    0 <= j < i ==> (#[trigger] r@[j])@ == choices_of(
                        self@.translations,
                        self@.groups,
                    )[j],
            decreases self.groups@.len() - i,
        {
            let group = &self.groups[i];
            r.push(
                GroupChoice {
                    id: group.id.clone(),
                    label: group_display_title(&self.translations, group.title.as_str()),
                    title: group.title.clone(),
                },
            );
            i += 1;
        }
        assert(order::views(r@) =~= choices_of(self@.translations, self@.groups));
        r
    }

    /// The places of the chapters of a group, or of those without a group.
    pub fn chapters_of_group(&self, group: Option<&str>) -> (r: Vec<usize>)
        ensures
            places(r@) == members_of(self@.chapters, text::opt_str(group)),
    {
        let ghost all = self@.chapters;
        let mut r: Vec<usize> = Vec::new();
        let mut i: usize = 0;
        assert(all.take(0) =~= Seq::empty());
        assert(places(r@) =~= Seq::empty());
        while i < self.chapters.len()
            invariant
                i <= self.chapters@.len(),
                all == self@.chapters,
                places(r@) == members_of(all.take(i as int), text::opt_str(group)),
            decreases self.chapters@.len() - i,
        {
            assert(all.take(i + 1).drop_last() =~= all.take(i as int));
            assert(all.take(i + 1).last() == self.chapters@[i as int]@);
            if is_in_group(&self.chapters[i], group) {
                let ghost before = places(r@);
                r.push(i);
                assert(places(r@) =~= before.push(i as int));
            }
            i += 1;
        }
        assert(all.take(i as int) =~= all);
        r
    }
}

} // verus!
