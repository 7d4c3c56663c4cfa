//! Finding groups, chapters and quests in a book.

use crate::compose;
use crate::compose::{join, number};
use crate::editor;
use crate::editor::EditableBook;
use crate::letters;
use crate::letters::to_lower_case;
use crate::notation;
use crate::order;
use crate::order::Ranked;
use crate::quest;
use crate::quest::{Chapter, ChapterGroup, Quest, Reward, Task};
use crate::snbt::stringify;
use crate::text;
use crate::translation;
use vstd::prelude::*;

verus! {

/// The most hits that are shown.
pub const MAX_SEARCH_RESULTS: usize = 250;

/// What was found.
#[derive(Debug, Clone)]
pub enum SearchTarget {
    Group { group_id: String },
    Chapter { chapter_index: usize },
    Quest { chapter_index: usize, quest_id: String },
}

/// The mathematical form of what was found.
pub ghost enum TargetModel {
    Group(Seq<char>),
    Chapter(int),
    Quest(int, Seq<char>),
}

impl View for SearchTarget {
    type V = TargetModel;

    open spec fn view(&self) -> TargetModel {
        match self {
            SearchTarget::Group { group_id } => TargetModel::Group(group_id@),
            SearchTarget::Chapter { chapter_index } => TargetModel::Chapter(*chapter_index as int),
            SearchTarget::Quest { chapter_index, quest_id } => TargetModel::Quest(
                *chapter_index as int,
                quest_id@,
            ),
        }
    }
}

/// What was found, how well it fits, and how it is shown.
#[derive(Debug, Clone)]
pub struct SearchHit {
    pub score: u8,
    pub title: String,
    pub subtitle: String,
    pub target: SearchTarget,
}

/// The mathematical form of a hit.
#[verifier::ext_equal]
pub ghost struct HitModel {
    pub score: u8,
    pub title: Seq<char>,
    pub subtitle: Seq<char>,
    pub target: TargetModel,
}

impl View for SearchHit {
    type V = HitModel;

    open spec fn view(&self) -> HitModel {
        HitModel {
            score: self.score,
            title: self.title@,
            subtitle: self.subtitle@,
            target: self.target@,
        }
    }
}

// ---------------------------------------------------------------------------
// How well something fits
// ---------------------------------------------------------------------------

/// How well something fits a query, all texts being in lower case: the less the better.
pub open spec fn score_of(
    query: Seq<char>,
    id: Seq<char>,
    title: Seq<char>,
    details: Seq<char>,
) -> Option<u8> {
    if id == query {
        Some(0)
    } else if title == query {
        Some(1)
    } else if text::has_prefix(id, query) {
        Some(2)
    } else if text::has_prefix(title, query) {
        Some(3)
    } else if text::has_text(id, query) {
        Some(4)
    } else if text::has_text(title, query) {
        Some(5)
    } else if text::has_text(details, query) {
        Some(6)
    } else {
        None
    }
}

/// How well something fits a query, all texts being in lower case.
pub fn lowercase_score(query: &str, id: &str, title: &str, details: &str) -> (r: Option<u8>)
    ensures
        r == score_of(query@, id@, title@, details@),
{
    if text::same(id, query) {
        Some(0)
    } else if text::same(title, query) {
        Some(1)
    } else if text::starts_with(id, query) {
        Some(2)
    } else if text::starts_with(title, query) {
        Some(3)
    } else if text::contains(id, query) {
        Some(4)
    } else if text::contains(title, query) {
        Some(5)
    } else if text::contains(details, query) {
        Some(6)
    } else {
        None
    }
}

/// How well something fits a query that is in lower case.
pub open spec fn fitting(
    query: Seq<char>,
    id: Seq<char>,
    title: Seq<char>,
    details: Seq<char>,
) -> Option<u8> {
    score_of(
        query,
        letters::lowercase(id),
        letters::lowercase(title),
        letters::lowercase(details),
    )
}

/// How well something fits a query that is in lower case.
pub fn search_score(query: &str, id: &str, title: &str, details: &str) -> (r: Option<u8>)
    ensures
        r == fitting(query@, id@, title@, details@),
{
    lowercase_score(
        query,
        to_lower_case(id).as_str(),
        to_lower_case(title).as_str(),
        to_lower_case(details).as_str(),
    )
}

// ---------------------------------------------------------------------------
// What is searched
// ---------------------------------------------------------------------------

/// The title of the first group with an id.
pub open spec fn group_title(groups: Seq<quest::GroupModel>, id: Seq<char>, i: int) -> Option<
    Seq<char>,
>
    decreases groups.len() - i,
{
    if i < 0 || i >= groups.len() {
        None
    } else if groups[i].id == id {
        Some(groups[i].title)
    } else {
        group_title(groups, id, i + 1)
    }
}

/// The title of the group of a chapter.
pub open spec fn title_of_group(
    groups: Seq<quest::GroupModel>,
    group: Option<Seq<char>>,
) -> Seq<char> {
    match group {
        Some(id) => match group_title(groups, id, 0) {
            Some(title) => title,
            None => "Без группы"@,
        },
        None => "Без группы"@,
    }
}

/// What is searched of a task.
pub open spec fn task_words(task: quest::TaskModel) -> Seq<char> {
    match task {
        quest::TaskModel::Checkmark { id, title, raw } => " "@ + id + " "@ + title
            + " checkmark"@,
        quest::TaskModel::Item { id, title, item, count, raw } => " "@ + id + " "@ + title + " "@
            + item + " item"@,
        quest::TaskModel::Kill { id, title, entity, count, raw } => " "@ + id + " "@ + title
            + " "@ + entity + " kill"@,
        quest::TaskModel::Unsupported { kind, raw } => " "@ + kind + " "@ + notation::written(raw),
    }
}

/// What is searched of a reward.
pub open spec fn reward_words(reward: quest::RewardModel) -> Seq<char> {
    match reward {
        quest::RewardModel::Xp { id, amount, raw } => " "@ + id + " "@ + compose::decimal(
            amount as nat,
        ) + " xp"@,
        quest::RewardModel::Item { id, item, count, raw } => " "@ + id + " "@ + item + " "@
            + compose::decimal(count as nat) + " item"@,
        quest::RewardModel::Unsupported { kind, raw } => " "@ + kind + " "@ + notation::written(
            raw,
        ),
    }
}

/// What is searched of tasks.
pub open spec fn tasks_words(tasks: Seq<quest::TaskModel>) -> Seq<char>
    decreases tasks.len(),
{
    if tasks.len() == 0 {
        Seq::empty()
    } else {
        tasks_words(tasks.drop_last()) + task_words(tasks.last())
    }
}

/// What is searched of rewards.
pub open spec fn rewards_words(rewards: Seq<quest::RewardModel>) -> Seq<char>
    decreases rewards.len(),
{
    if rewards.len() == 0 {
        Seq::empty()
    } else {
        rewards_words(rewards.drop_last()) + reward_words(rewards.last())
    }
}

/// The titles under which a quest stands.
pub ghost struct Titles {
    pub group: Seq<char>,
    pub chapter: Seq<char>,
}

/// What is searched of a quest beside its id and its title.
pub open spec fn quest_words(
    catalog: translation::CatalogModel,
    titles: Titles,
    chapter: quest::ChapterModel,
    quest: quest::QuestModel,
) -> Seq<char> {
    translation::shown(catalog, quest.description) + " "@ + quest.description + " "@ + quest.icon
        + " "@ + titles.chapter + " "@ + chapter.title + " "@ + titles.group + " "@
        + chapter.filename + " "@ + translation::shown(catalog, quest.settings.subtitle) + " "@
        + quest.settings.subtitle + " "@ + compose::joined(quest.settings.tags, " "@)
        + tasks_words(quest.tasks) + rewards_words(quest.rewards)
}

// ---------------------------------------------------------------------------
// Hits
// ---------------------------------------------------------------------------

/// The hit for a group.
pub open spec fn group_hit(
    catalog: translation::CatalogModel,
    group: quest::GroupModel,
    query: Seq<char>,
) -> Option<HitModel> {
    let title = translation::shown(catalog, group.title);
    match fitting(query, group.id, title, group.title) {
        Some(score) => Some(
            HitModel {
                score,
                title: "Группа: "@ + title,
                subtitle: "ID: "@ + group.id,
                target: TargetModel::Group(group.id),
            },
        ),
        None => None,
    }
}

/// The titles under which the quests of a chapter stand.
pub open spec fn titles_of(book: editor::BookModel, chapter: quest::ChapterModel) -> Titles {
    Titles {
        group: translation::shown(book.translations, title_of_group(book.groups, chapter.group)),
        chapter: translation::shown(book.translations, chapter.title),
    }
}

/// The hit for a chapter.
pub open spec fn chapter_hit(book: editor::BookModel, index: int, query: Seq<char>) -> Option<
    HitModel,
> {
    let chapter = book.chapters[index];
    let titles = titles_of(book, chapter);
    match fitting(
        query,
        chapter.id,
        titles.chapter,
        chapter.filename + " "@ + titles.group + " "@ + chapter.title + " "@ + title_of_group(
            book.groups,
            chapter.group,
        ),
    ) {
        Some(score) => Some(
            HitModel {
                score,
                title: "Глава: "@ + titles.chapter,
                subtitle: titles.group + " · файл "@ + chapter.filename + " · ID "@ + chapter.id,
                target: TargetModel::Chapter(index),
            },
        ),
        None => None,
    }
}

/// The place of a quest as it is shown, where it is given.
pub open spec fn place_label(places: Seq<Vec<String>>, chapter: int, quest: int) -> Seq<char> {
    if 0 <= chapter < places.len() && 0 <= quest < places[chapter]@.len() {
        places[chapter]@[quest]@
    } else {
        Seq::empty()
    }
}

/// The hit for a quest.
pub open spec fn quest_hit(
    book: editor::BookModel,
    index: int,
    i: int,
    query: Seq<char>,
    places: Seq<Vec<String>>,
) -> Option<HitModel> {
    let chapter = book.chapters[index];
    let quest = chapter.quests[i];
    let titles = titles_of(book, chapter);
    let title = translation::shown(book.translations, quest.title);
    match fitting(
        query,
        quest.id,
        title,
        quest_words(book.translations, titles, chapter, quest),
    ) {
        Some(score) => Some(
            HitModel {
                score,
                title: "Квест: "@ + title,
                subtitle: titles.group + " / "@ + titles.chapter + " · ID "@ + quest.id + " · ["@
                    + place_label(places, index, i) + "]"@,
                target: TargetModel::Quest(index, quest.id),
            },
        ),
        None => None,
    }
}

/// The hits with one more, where there is one.
pub open spec fn and_hit(hits: Seq<HitModel>, hit: Option<HitModel>) -> Seq<HitModel> {
    match hit {
        Some(h) => hits.push(h),
        None => hits,
    }
}

/// The hits among the first `n` groups.
pub open spec fn group_hits(book: editor::BookModel, n: int, query: Seq<char>) -> Seq<HitModel>
    decreases n,
{
    if n <= 0 {
        Seq::empty()
    } else {
        and_hit(
            group_hits(book, n - 1, query),
            group_hit(book.translations, book.groups[n - 1], query),
        )
    }
}

/// The hits with those among the first `n` quests of a chapter.
pub open spec fn quest_hits(
    hits: Seq<HitModel>,
    book: editor::BookModel,
    index: int,
    n: int,
    query: Seq<char>,
    places: Seq<Vec<String>>,
) -> Seq<HitModel>
    decreases n,
{
    if n <= 0 {
        hits
    } else {
        and_hit(
            quest_hits(hits, book, index, n - 1, query, places),
            quest_hit(book, index, n - 1, query, places),
        )
    }
}

/// The hits with those among the first `n` chapters and their quests.
pub open spec fn chapter_hits(
    hits: Seq<HitModel>,
    book: editor::BookModel,
    n: int,
    query: Seq<char>,
    places: Seq<Vec<String>>,
) -> Seq<HitModel>
    decreases n,
{
    if n <= 0 {
        hits
    } else {
        quest_hits(
            and_hit(
                chapter_hits(hits, book, n - 1, query, places),
                chapter_hit(book, n - 1, query),
            ),
            book,
            n - 1,
            book.chapters[n - 1].quests.len() as int,
            query,
            places,
        )
    }
}

/// All hits, in the order in which they stand in the book.
pub open spec fn all_hits(
    book: editor::BookModel,
    query: Seq<char>,
    places: Seq<Vec<String>>,
) -> Seq<HitModel> {
    chapter_hits(
        group_hits(book, book.groups.len() as int, query),
        book,
        book.chapters.len() as int,
        query,
        places,
    )
}

/// A hit that fits better goes before another; of two that fit as well, the one whose title comes
/// first, whatever its case.
pub open spec fn fits_better(a: HitModel, b: HitModel) -> bool {
    if a.score != b.score {
        a.score < b.score
    } else {
        text::precedes(letters::lowercase(a.title), letters::lowercase(b.title))
    }
}

/// All hits, the best first.
pub open spec fn sorted_hits(hits: Seq<HitModel>) -> Seq<HitModel> {
    order::sorted_by(hits, |a: HitModel, b: HitModel| fits_better(a, b))
}

/// The first hits, as many as are shown.
pub open spec fn first_hits(hits: Seq<HitModel>) -> Seq<HitModel> {
    if hits.len() > MAX_SEARCH_RESULTS {
        hits.take(MAX_SEARCH_RESULTS as int)
    } else {
        hits
    }
}

/// A hit, and its title in lower case.
struct FoundHit {
    hit: SearchHit,
    key: String,
}

impl FoundHit {
    #[verifier::type_invariant]
    spec fn key_is_title(self) -> bool {
        self.key@ == letters::lowercase(self.hit.title@)
    }
}

impl View for FoundHit {
    type V = HitModel;

    closed spec fn view(&self) -> HitModel {
        self.hit@
    }
}

impl Ranked for FoundHit {
    open spec fn goes_before(a: HitModel, b: HitModel) -> bool {
        fits_better(a, b)
    }

    fn is_ranked_before(&self, other: &Self) -> (r: bool) {
        proof {
            use_type_invariant(self);
            use_type_invariant(other);
        }
        if self.hit.score != other.hit.score {
            self.hit.score < other.hit.score
        } else {
            text::is_before(self.key.as_str(), other.key.as_str())
        }
    }
}

fn push_hit(hits: &mut Vec<FoundHit>, hit: SearchHit)
    ensures
        order::views(final(hits)@) == order::views(old(hits)@).push(hit@),
{
    let ghost before = hits@;
    let ghost model = hit@;
    let key = to_lower_case(hit.title.as_str());
    hits.push(FoundHit { hit, key });
    assert(order::views(hits@) =~= order::views(before).push(model));
}

/// The title of the first group with an id.
pub fn find_group_title<'a>(groups: &'a Vec<ChapterGroup>, id: &str) -> (r: Option<&'a str>)
    ensures
        text::opt_str(r) == group_title(order::views(groups@), id@, 0),
{
    let ghost all = order::views(groups@);
    let mut i: usize = 0;
    while i < groups.len()
        invariant
            i <= groups@.len(),
            all == order::views(groups@),
            group_title(all, id@, 0) == group_title(all, id@, i as int),
        decreases groups@.len() - i,
    {
        assert(all[i as int] == groups@[i as int]@);
        if text::same(groups[i].id.as_str(), id) {
            return Some(groups[i].title.as_str());
        }
        i += 1;
    }
    None
}

fn raw_group_title(groups: &Vec<ChapterGroup>, group: &Option<String>) -> (r: String)
    ensures
        r@ == title_of_group(order::views(groups@), text::opt_text(*group)),
{
    match group {
        Some(id) => {
            match find_group_title(groups, id.as_str()) {
                Some(title) => title.to_owned(),
                None => "Без группы".to_owned(),
            }
        },
        None => "Без группы".to_owned(),
    }
}

fn words_of_task(task: &Task) -> (r: String)
    ensures
        r@ == task_words(task@),
{
    let mut r = " ".to_owned();
    match task {
        Task::Checkmark { id, title, raw } => {
            r.append(id.as_str());
            r.append(" ");
            r.append(title.as_str());
            r.append(" checkmark");
        },
        Task::Item { id, title, item, count, raw } => {
            r.append(id.as_str());
            r.append(" ");
            r.append(title.as_str());
            r.append(" ");
            r.append(item.as_str());
            r.append(" item");
        },
        Task::Kill { id, title, entity, count, raw } => {
            r.append(id.as_str());
            r.append(" ");
            r.append(title.as_str());
            r.append(" ");
            r.append(entity.as_str());
            r.append(" kill");
        },
        Task::Unsupported { kind, raw } => {
            r.append(kind.as_str());
            r.append(" ");
            r.append(stringify(raw).as_str());
        },
    }
    r
}

fn words_of_reward(reward: &Reward) -> (r: String)
    ensures
        r@ == reward_words(reward@),
{
    let mut r = " ".to_owned();
    match reward {
        Reward::Xp { id, amount, raw } => {
            r.append(id.as_str());
            r.append(" ");
            r.append(number(*amount as u128).as_str());
            r.append(" xp");
        },
        Reward::Item { id, item, count, raw } => {
            r.append(id.as_str());
            r.append(" ");
            r.append(item.as_str());
            r.append(" ");
            r.append(number(*count as u128).as_str());
            r.append(" item");
        },
        Reward::Unsupported { kind, raw } => {
            r.append(kind.as_str());
            r.append(" ");
            r.append(stringify(raw).as_str());
        },
    }
    r
}

fn append_task_words(output: &mut String, tasks: &Vec<Task>)
    ensures
        final(output)@ == old(output)@ + tasks_words(order::views(tasks@)),
{
    let ghost start = output@;
    let ghost all = order::views(tasks@);
    let mut i: usize = 0;
    assert(all.take(0) =~= Seq::empty());
    assert(start + tasks_words(all.take(0)) =~= start);
    while i < tasks.len()
        invariant
            i <= tasks@.len(),
            all == order::views(tasks@),
            output@ == start + tasks_words(all.take(i as int)),
        decreases tasks@.len() - i,
    {
        proof {
            assert(all.take(i + 1).drop_last() =~= all.take(i as int));
            assert(all.take(i + 1).last() == tasks@[i as int]@);
        }
        output.append(words_of_task(&tasks[i]).as_str());
        assert(output@ =~= start + tasks_words(all.take(i + 1)));
        i += 1;
    }
    assert(all.take(i as int) =~= all);
}

fn append_reward_words(output: &mut String, rewards: &Vec<Reward>)
    ensures
        final(output)@ == old(output)@ + rewards_words(order::views(rewards@)),
{
    let ghost start = output@;
    let ghost all = order::views(rewards@);
    let mut i: usize = 0;
    assert(all.take(0) =~= Seq::empty());
    assert(start + rewards_words(all.take(0)) =~= start);
    while i < rewards.len()
        invariant
            i <= rewards@.len(),
            all == order::views(rewards@),
            output@ == start + rewards_words(all.take(i as int)),
        decreases rewards@.len() - i,
    {
        proof {
            assert(all.take(i + 1).drop_last() =~= all.take(i as int));
            assert(all.take(i + 1).last() == rewards@[i as int]@);
        }
        output.append(words_of_reward(&rewards[i]).as_str());
        assert(output@ =~= start + rewards_words(all.take(i + 1)));
        i += 1;
    }
    assert(all.take(i as int) =~= all);
}

impl EditableBook {
    fn quest_details(
        &self,
        group_title: &str,
        chapter_title: &str,
        chapter: &Chapter,
        quest: &Quest,
    ) -> (r: String)
        ensures
            r@ == quest_words(
                self@.translations,
                (Titles { group: group_title@, chapter: chapter_title@ }),
                chapter@,
                quest@,
            ),
    {
        let mut r = self.translations.resolve(quest.description.as_str());
        r.append(" ");
        r.append(quest.description.as_str());
        r.append(" ");
        r.append(quest.icon.as_str());
        r.append(" ");
        r.append(chapter_title);
        r.append(" ");
        r.append(chapter.title.as_str());
        r.append(" ");
        r.append(group_title);
        r.append(" ");
        r.append(chapter.filename.as_str());
        r.append(" ");
        r.append(self.translations.resolve(quest.settings.subtitle.as_str()).as_str());
        r.append(" ");
        r.append(quest.settings.subtitle.as_str());
        r.append(" ");
        r.append(join(&quest.settings.tags, " ").as_str());
        append_task_words(&mut r, &quest.tasks);
        append_reward_words(&mut r, &quest.rewards);
        r
    }

    fn find_group(&self, group: &ChapterGroup, query: &str, hits: &mut Vec<FoundHit>)
        ensures
            order::views(final(hits)@) == and_hit(
                order::views(old(hits)@),
                group_hit(self@.translations, group@, query@),
            ),
    {
        let title = self.translations.resolve(group.title.as_str());
        match search_score(query, group.id.as_str(), title.as_str(), group.title.as_str()) {
            Some(score) => {
                let mut shown_title = "Группа: ".to_owned();
                shown_title.append(title.as_str());
                let mut subtitle = "ID: ".to_owned();
                subtitle.append(group.id.as_str());
                push_hit(
                    hits,
                    SearchHit {
                        score,
                        title: shown_title,
                        subtitle,
                        target: SearchTarget::Group { group_id: group.id.clone() },
                    },
                );
            },
            None => {},
        }
    }

    fn find_chapter(&self, index: usize, query: &str, hits: &mut Vec<FoundHit>)
        requires
            index < self@.chapters.len(),
        ensures
            order::views(final(hits)@) == and_hit(
                order::views(old(hits)@),
                chapter_hit(self@, index as int, query@),
            ),
    {
        let chapter = &self.chapters[index];
        assert(self@.chapters[index as int] == chapter@);
        let raw = raw_group_title(&self.groups, &chapter.group);
        let group_title = self.translations.resolve(raw.as_str());
        let chapter_title = self.translations.resolve(chapter.title.as_str());
        let mut details = chapter.filename.clone();
        details.append(" ");
        details.append(group_title.as_str());
        details.append(" ");
        details.append(chapter.title.as_str());
        details.append(" ");
        details.append(raw.as_str());
        match search_score(query, chapter.id.as_str(), chapter_title.as_str(), details.as_str()) {
            Some(score) => {
                let mut title = "Глава: ".to_owned();
                title.append(chapter_title.as_str());
                let mut subtitle = group_title.clone();
                subtitle.append(" · файл ");
                subtitle.append(chapter.filename.as_str());
                subtitle.append(" · ID ");
                subtitle.append(chapter.id.as_str());
                push_hit(
                    hits,
                    SearchHit {
                        score,
                        title,
                        subtitle,
                        target: SearchTarget::Chapter { chapter_index: index },
                    },
                );
            },
            None => {},
        }
    }

    fn find_quest(
        &self,
        index: usize,
        i: usize,
        query: &str,
        places: &Vec<Vec<String>>,
        hits: &mut Vec<FoundHit>,
    )
        requires
            index < self@.chapters.len(),
            i < self@.chapters[index as int].quests.len(),
        ensures
            order::views(final(hits)@) == and_hit(
                order::views(old(hits)@),
                quest_hit(self@, index as int, i as int, query@, places@),
            ),
    {
        let chapter = &self.chapters[index];
        assert(self@.chapters[index as int] == chapter@);
        let quest = &chapter.quests[i];
        assert(chapter@.quests[i as int] == quest@);
        let raw = raw_group_title(&self.groups, &chapter.group);
        let group_title = self.translations.resolve(raw.as_str());
        let chapter_title = self.translations.resolve(chapter.title.as_str());
        let quest_title = self.translations.resolve(quest.title.as_str());
        let details = self.quest_details(
            group_title.as_str(),
            chapter_title.as_str(),
            chapter,
            quest,
        );
        match search_score(query, quest.id.as_str(), quest_title.as_str(), details.as_str()) {
            Some(score) => {
                let mut title = "Квест: ".to_owned();
                title.append(quest_title.as_str());
                let mut subtitle = group_title.clone();
                subtitle.append(" / ");
                subtitle.append(chapter_title.as_str());
                subtitle.append(" · ID ");
                subtitle.append(quest.id.as_str());
                subtitle.append(" · [");
                if index < places.len() && i < places[index].len() {
                    subtitle.append(places[index][i].as_str());
                } else {
                    assert(subtitle@ + Seq::<char>::empty() =~= subtitle@);
                }
                subtitle.append("]");
                push_hit(
                    hits,
                    SearchHit {
                        score,
                        title,
                        subtitle,
                        target: SearchTarget::Quest {
                            chapter_index: index,
                            quest_id: quest.id.clone(),
                        },
                    },
                );
            },
            None => {},
        }
    }
}

/// What is searched for: the query in small letters, without the white space around it.
pub open spec fn query_key(query: Seq<char>) -> Seq<char> {
    if letters::is_ascii(text::trimmed(query)) {
        compose::lowered(text::trimmed(query))
    } else {
        letters::lowercase(text::trimmed(query))
    }
}

/// What in a book fits a query, the best first, and how much it is in all. The places of quests are
/// given as they are shown.
pub fn search_book(book: &EditableBook, query: &str, places: &Vec<Vec<String>>) -> (r: (
    Vec<SearchHit>,
    usize,
))
    ensures
        ({
            let hits = all_hits(book@, query_key(query@), places@);
            &&& order::views(r.0@) == first_hits(sorted_hits(hits))
            &&& r.1 == hits.len()
        }),
{
    let query = to_lower_case(text::trim(query).as_str());
    let ghost q = query@;
    let mut hits: Vec<FoundHit> = Vec::new();
    assert(order::views(hits@) =~= Seq::empty());
    let mut i: usize = 0;
    while i < book.groups.len()
        invariant
            i <= book.groups@.len(),
            q == query@,
            order::views(hits@) == group_hits(book@, i as int, q),
        decreases book.groups@.len() - i,
    {
        assert(book@.groups[i as int] == book.groups@[i as int]@);
        book.find_group(&book.groups[i], query.as_str(), &mut hits);
        i += 1;
    }
    let ghost first = order::views(hits@);
    let mut c: usize = 0;
    while c < book.chapters.len()
        invariant
            c <= book.chapters@.len(),
            q == query@,
            order::views(hits@) == chapter_hits(first, book@, c as int, q, places@),
        decreases book.chapters@.len() - c,
    {
        book.find_chapter(c, query.as_str(), &mut hits);
        let ghost started = order::views(hits@);
        let mut k: usize = 0;
        while k < book.chapters[c].quests.len()
            invariant
                c < book.chapters@.len(),
                k <= book.chapters@[c as int].quests@.len(),
                q == query@,
                order::views(hits@) == quest_hits(started, book@, c as int, k as int, q, places@),
            decreases book.chapters@[c as int].quests@.len() - k,
        {
            assert(book@.chapters[c as int] == book.chapters@[c as int]@);
            book.find_quest(c, k, query.as_str(), places, &mut hits);
            k += 1;
        }
        assert(book@.chapters[c as int] == book.chapters@[c as int]@);
        c += 1;
    }
    let ghost all = order::views(hits@);
    let total: usize = hits.len();
    let sorted = order::sort(hits);
    proof {
        assert(order::ranking::<FoundHit>() =~= (|a: HitModel, b: HitModel| fits_better(a, b)));
    }
    let ghost ranked = order::views(sorted@);
    let mut r: Vec<SearchHit> = Vec::new();
    let mut n: usize = 0;
    while n < sorted.len() && n < MAX_SEARCH_RESULTS
        invariant
            n <= sorted@.len(),
            n <= MAX_SEARCH_RESULTS,
            r@.len() == n,
            forall|j: int| 0 <= j < n ==> (#[trigger] r@[j])@ == sorted@[j]@,
        decreases sorted@.len() - n,
    {
        let hit = copy_hit(&sorted[n].hit);
        r.push(hit);
        n += 1;
    }
    assert(order::views(r@) =~= first_hits(ranked));
    (r, total)
}

fn copy_hit(hit: &SearchHit) -> (r: SearchHit)
    ensures
        r@ == hit@,
{
    let target = match &hit.target {
        SearchTarget::Group { group_id } => SearchTarget::Group { group_id: group_id.clone() },
        SearchTarget::Chapter { chapter_index } => SearchTarget::Chapter {
            chapter_index: *chapter_index,
        },
        SearchTarget::Quest { chapter_index, quest_id } => SearchTarget::Quest {
            chapter_index: *chapter_index,
            quest_id: quest_id.clone(),
        },
    };
    SearchHit {
        score: hit.score,
        title: hit.title.clone(),
        subtitle: hit.subtitle.clone(),
        target,
    }
}

// ---------------------------------------------------------------------------
// Laws
// ---------------------------------------------------------------------------

/// Hits come in the order of how well they fit, and among those that fit alike in the order of
/// their titles in small letters.
pub proof fn law_better_hits_come_first(hits: Seq<HitModel>, i: int, j: int)
    requires
        0 <= i < j < sorted_hits(hits).len(),
    ensures
        sorted_hits(hits)[i].score <= sorted_hits(hits)[j].score,
        sorted_hits(hits)[i].score == sorted_hits(hits)[j].score ==> !text::precedes(
            letters::lowercase(sorted_hits(hits)[j].title),
            letters::lowercase(sorted_hits(hits)[i].title),
        ),
        sorted_hits(hits).len() == hits.len(),
{
    let before = |a: HitModel, b: HitModel| fits_better(a, b);
    assert(order::is_ranking(before)) by {
        assert forall|a: HitModel, b: HitModel| #[trigger] before(a, b) implies !before(b, a) by {
            if a.score == b.score {
                text::lemma_precedes_asymmetric(
                    letters::lowercase(a.title),
                    letters::lowercase(b.title),
                );
            }
        }
        assert forall|a: HitModel, b: HitModel, c: HitModel|
            !(#[trigger] before(b, a)) && !(#[trigger] before(c, b)) implies !before(c, a) by {
            let x = letters::lowercase(a.title);
            let y = letters::lowercase(b.title);
            let z = letters::lowercase(c.title);
            if a.score == b.score && b.score == c.score && text::precedes(z, x) {
                text::lemma_precedes_total(x, y);
                if x != y {
                    text::lemma_precedes_transitive(z, x, y);
                }
            }
        }
    }
    order::lemma_sorted_in_order(hits, before);
    order::lemma_sorted_keeps(hits, before);
}

/// How many of the first `n` groups fit a query.
pub open spec fn fitting_groups(book: editor::BookModel, n: int, query: Seq<char>) -> nat
    decreases n,
{
    if n <= 0 {
        0
    } else {
        fitting_groups(book, n - 1, query) + (if group_hit(
            book.translations,
            book.groups[n - 1],
            query,
        ) is Some {
            1nat
        } else {
            0
        })
    }
}

/// How many of the first `n` quests of a chapter fit a query.
pub open spec fn fitting_quests(
    book: editor::BookModel,
    index: int,
    n: int,
    query: Seq<char>,
    places: Seq<Vec<String>>,
) -> nat
    decreases n,
{
    if n <= 0 {
        0
    } else {
        fitting_quests(book, index, n - 1, query, places) + (if quest_hit(
            book,
            index,
            n - 1,
            query,
            places,
        ) is Some {
            1nat
        } else {
            0
        })
    }
}

/// How many of the first `n` chapters and of their quests fit a query.
pub open spec fn fitting_chapters(
    book: editor::BookModel,
    n: int,
    query: Seq<char>,
    places: Seq<Vec<String>>,
) -> nat
    decreases n,
{
    if n <= 0 {
        0
    } else {
        fitting_chapters(book, n - 1, query, places) + (if chapter_hit(book, n - 1, query) is Some {
            1nat
        } else {
            0
        }) + fitting_quests(
            book,
            n - 1,
            book.chapters[n - 1].quests.len() as int,
            query,
            places,
        )
    }
}

proof fn lemma_group_hits(book: editor::BookModel, n: int, query: Seq<char>)
    ensures
        group_hits(book, n, query).len() == fitting_groups(book, n, query),
    decreases n,
{
    if n > 0 {
        lemma_group_hits(book, n - 1, query);
    }
}

proof fn lemma_quest_hits(
    hits: Seq<HitModel>,
    book: editor::BookModel,
    index: int,
    n: int,
    query: Seq<char>,
    places: Seq<Vec<String>>,
)
    ensures
        quest_hits(hits, book, index, n, query, places).len() == hits.len() + fitting_quests(
            book,
            index,
            n,
            query,
            places,
        ),
    decreases n,
{
    if n > 0 {
        lemma_quest_hits(hits, book, index, n - 1, query, places);
    }
}

proof fn lemma_chapter_hits(
    hits: Seq<HitModel>,
    book: editor::BookModel,
    n: int,
    query: Seq<char>,
    places: Seq<Vec<String>>,
)
    ensures
        chapter_hits(hits, book, n, query, places).len() == hits.len() + fitting_chapters(
            book,
            n,
            query,
            places,
        ),
    decreases n,
{
    if n > 0 {
        lemma_chapter_hits(hits, book, n - 1, query, places);
        lemma_quest_hits(
            and_hit(
                chapter_hits(hits, book, n - 1, query, places),
                chapter_hit(book, n - 1, query),
            ),
            book,
            n - 1,
            book.chapters[n - 1].quests.len() as int,
            query,
            places,
        );
    }
}

/// There are as many hits as groups, chapters and quests fit the query, and of these as many are
/// shown as may be.
pub proof fn law_hits_are_counted(
    book: editor::BookModel,
    query: Seq<char>,
    places: Seq<Vec<String>>,
)
    ensures
        all_hits(book, query, places).len() == fitting_groups(
            book,
            book.groups.len() as int,
            query,
        ) + fitting_chapters(book, book.chapters.len() as int, query, places),
        first_hits(sorted_hits(all_hits(book, query, places))).len() == if all_hits(
            book,
            query,
            places,
        ).len() > MAX_SEARCH_RESULTS {
            MAX_SEARCH_RESULTS as nat
        } else {
            all_hits(book, query, places).len()
        },
{
    lemma_group_hits(book, book.groups.len() as int, query);
    lemma_chapter_hits(
        group_hits(book, book.groups.len() as int, query),
        book,
        book.chapters.len() as int,
        query,
        places,
    );
    order::lemma_sorted_keeps(
        all_hits(book, query, places),
        |a: HitModel, b: HitModel| fits_better(a, b),
    );
}

/// A text in ASCII capital letters.
pub open spec fn in_capitals(s: Seq<char>) -> Seq<char> {
    Seq::new(
        s.len(),
        |i: int|
            if 'a' <= s[i] <= 'z' {
                (s[i] as int - 32) as char
            } else {
                s[i]
            },
    )
}

proof fn lemma_capitals_trim_start(s: Seq<char>)
    requires
        letters::is_ascii(s),
    ensures
        text::trim_start(in_capitals(s)) == in_capitals(text::trim_start(s)),
        letters::is_ascii(text::trim_start(s)),
    decreases s.len(),
{
    if s.len() > 0 {
        assert(s[0] as u32 <= 127);
        assert(text::whitespace(in_capitals(s)[0]) == text::whitespace(s[0]));
        if text::whitespace(s[0]) {
            assert forall|i: int| 0 <= i < s.skip(1).len() implies #[trigger] s.skip(1)[i] as u32
                <= 127 by {
                assert(s.skip(1)[i] == s[i + 1]);
            }
            lemma_capitals_trim_start(s.skip(1));
            assert(in_capitals(s).skip(1) =~= in_capitals(s.skip(1)));
        }
    }
}

proof fn lemma_capitals_trim_end(s: Seq<char>)
    requires
        letters::is_ascii(s),
    ensures
        text::trim_end(in_capitals(s)) == in_capitals(text::trim_end(s)),
        letters::is_ascii(text::trim_end(s)),
    decreases s.len(),
{
    if s.len() > 0 {
        let n = s.len() - 1;
        assert(s[n] as u32 <= 127);
        assert(text::whitespace(in_capitals(s)[n]) == text::whitespace(s[n]));
        if text::whitespace(s[n]) {
            assert forall|i: int| 0 <= i < s.drop_last().len() implies #[trigger] s.drop_last()[i] as u32
                <= 127 by {
                assert(s.drop_last()[i] == s[i]);
            }
            lemma_capitals_trim_end(s.drop_last());
            assert(in_capitals(s).drop_last() =~= in_capitals(s.drop_last()));
        }
    }
}

proof fn lemma_space_before(space: Seq<char>, s: Seq<char>)
    requires
        forall|i: int| 0 <= i < space.len() ==> text::whitespace(#[trigger] space[i]),
    ensures
        text::trim_start(space + s) == text::trim_start(s),
    decreases space.len(),
{
    if space.len() == 0 {
        assert(space + s =~= s);
    } else {
        assert(text::whitespace(space[0]));
        assert((space + s)[0] == space[0]);
        assert((space + s).skip(1) =~= space.skip(1) + s);
        assert forall|i: int| 0 <= i < space.skip(1).len() implies text::whitespace(
            #[trigger] space.skip(1)[i],
        ) by {
            assert(space.skip(1)[i] == space[i + 1]);
        }
        lemma_space_before(space.skip(1), s);
    }
}

/// A query of ASCII characters finds the same in capital letters and behind white space.
pub proof fn law_capitals_find_the_same(
    book: editor::BookModel,
    space: Seq<char>,
    query: Seq<char>,
    places: Seq<Vec<String>>,
)
    requires
        letters::is_ascii(query),
        forall|i: int| 0 <= i < space.len() ==> text::whitespace(#[trigger] space[i]),
    ensures
        query_key(space + in_capitals(query)) == query_key(query),
        all_hits(book, query_key(space + in_capitals(query)), places) == all_hits(
            book,
            query_key(query),
            places,
        ),
{
    lemma_space_before(space, in_capitals(query));
    lemma_capitals_trim_start(query);
    lemma_capitals_trim_end(text::trim_start(query));
    let trimmed = text::trimmed(query);
    let loud = text::trimmed(space + in_capitals(query));
    assert(loud == in_capitals(trimmed));
    assert(letters::is_ascii(loud)) by {
        assert forall|i: int| 0 <= i < loud.len() implies #[trigger] loud[i] as u32 <= 127 by {
            assert(trimmed[i] as u32 <= 127);
        }
    }
    assert(compose::lowered(loud) =~= compose::lowered(trimmed)) by {
        assert forall|i: int| 0 <= i < loud.len() implies compose::lowered(loud)[i]
            == compose::lowered(trimmed)[i] by {
            assert(loud[i] == in_capitals(trimmed)[i]);
        }
    }
}

} // verus!
