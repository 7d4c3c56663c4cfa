//! What a search finds: by which texts, with which score, and nothing twice or in vain.

use crate::compose;
use crate::editor;
use crate::letters;
use crate::notation;
use crate::order;
use crate::quest;
use crate::search;
use crate::text;
use crate::translation;
use vstd::prelude::*;

verus! {

// ---------------------------------------------------------------------------
// Words
// ---------------------------------------------------------------------------

/// A text stands in another one, set off by spaces.
pub open spec fn is_word_of(words: Seq<char>, p: Seq<char>) -> bool {
    exists|a: Seq<char>, b: Seq<char>|
        #![trigger a + p + b]
        words == a + p + b && (a.len() == 0 || a.last() == ' ') && (b.len() == 0 || b[0] == ' ')
}

proof fn lemma_word_inside(words: Seq<char>, x: Seq<char>, p: Seq<char>)
    requires
        is_word_of(words, x),
        is_word_of(x, p),
    ensures
        is_word_of(words, p),
{
    let (a, b) = choose|a: Seq<char>, b: Seq<char>|
        #![trigger a + x + b]
        words == a + x + b && (a.len() == 0 || a.last() == ' ') && (b.len() == 0 || b[0] == ' ');
    let (c, d) = choose|c: Seq<char>, d: Seq<char>|
        #![trigger c + p + d]
        x == c + p + d && (c.len() == 0 || c.last() == ' ') && (d.len() == 0 || d[0] == ' ');
    let l = a + c;
    let r = d + b;
    assert(words =~= l + p + r);
    if c.len() > 0 {
        assert(l.last() == c.last());
    } else {
        assert(l =~= a);
    }
    if d.len() > 0 {
        assert(r[0] == d[0]);
    } else {
        assert(r =~= b);
    }
}

proof fn lemma_set_off(words: Seq<char>, a: Seq<char>, p: Seq<char>, b: Seq<char>)
    requires
        words == a + p + b,
        a.len() == 0 || a.last() == ' ',
        b.len() == 0 || b[0] == ' ',
    ensures
        is_word_of(words, p),
{
}

proof fn lemma_joined_words(parts: Seq<Seq<char>>, k: int)
    requires
        0 <= k < parts.len(),
    ensures
        is_word_of(compose::joined(parts, " "@), parts[k]),
    decreases parts.len(),
{
    reveal_strlit(" ");
    let all = compose::joined(parts, " "@);
    if parts.len() == 1 {
        lemma_set_off(all, Seq::empty(), parts[0], Seq::empty());
        assert(all =~= Seq::<char>::empty() + parts[0] + Seq::<char>::empty());
    } else {
        let front = parts.drop_last();
        let before = compose::joined(front, " "@);
        if k == parts.len() - 1 {
            let a = before + " "@;
            assert(a.last() == ' ');
            assert(all =~= a + parts[k] + Seq::<char>::empty());
            lemma_set_off(all, a, parts[k], Seq::empty());
        } else {
            lemma_joined_words(front, k);
            let b = " "@ + parts.last();
            assert(b[0] == ' ');
            assert(all =~= Seq::<char>::empty() + before + b);
            lemma_set_off(all, Seq::empty(), before, b);
            assert(front[k] == parts[k]);
            lemma_word_inside(all, before, parts[k]);
        }
    }
}

/// Lower case is made word by word: a space stays, and what stands on one side of it makes no
/// difference to the other side.
pub open spec fn lowers_word_by_word() -> bool {
    forall|a: Seq<char>, b: Seq<char>| #[trigger]
        letters::lowercase(a + " "@ + b) == letters::lowercase(a) + " "@ + letters::lowercase(b)
}

proof fn lemma_text_inside(words: Seq<char>, a: Seq<char>, x: Seq<char>, b: Seq<char>, q: Seq<char>)
    requires
        words == a + x + b,
        text::has_text(x, q),
    ensures
        text::has_text(words, q),
{
    let i = choose|i: int| text::stands_at(x, q, i);
    let at = a.len() + i;
    assert(words.subrange(at, at + q.len()) =~= x.subrange(i, i + q.len()));
    assert(text::stands_at(words, q, at));
}

proof fn lemma_lowered_word(words: Seq<char>, p: Seq<char>, q: Seq<char>)
    requires
        lowers_word_by_word(),
        is_word_of(words, p),
        text::has_text(letters::lowercase(p), q),
    ensures
        text::has_text(letters::lowercase(words), q),
{
    reveal_strlit(" ");
    let (a, b) = choose|a: Seq<char>, b: Seq<char>|
        #![trigger a + p + b]
        words == a + p + b && (a.len() == 0 || a.last() == ' ') && (b.len() == 0 || b[0] == ' ');
    let tail = p + b;
    let low = letters::lowercase(tail);
    if b.len() > 0 {
        let c = b.skip(1);
        assert(tail =~= p + " "@ + c);
        assert(low == letters::lowercase(p) + " "@ + letters::lowercase(c));
        assert(low =~= Seq::<char>::empty() + letters::lowercase(p) + (" "@ + letters::lowercase(
            c,
        )));
        lemma_text_inside(
            low,
            Seq::empty(),
            letters::lowercase(p),
            " "@ + letters::lowercase(c),
            q,
        );
    } else {
        assert(tail =~= p);
    }
    if a.len() > 0 {
        let c = a.drop_last();
        assert(words =~= c + " "@ + tail);
        let all = letters::lowercase(words);
        assert(all == letters::lowercase(c) + " "@ + low);
        assert(all =~= (letters::lowercase(c) + " "@) + low + Seq::<char>::empty());
        lemma_text_inside(all, letters::lowercase(c) + " "@, low, Seq::empty(), q);
    } else {
        assert(words =~= tail);
    }
}

// ---------------------------------------------------------------------------
// The texts of a quest
// ---------------------------------------------------------------------------

pub open spec fn task_has_text(task: quest::TaskModel, x: Seq<char>) -> bool {
    match task {
        quest::TaskModel::Checkmark { id, title, .. } => x == id || x == title || x
            == "checkmark"@,
        quest::TaskModel::Item { id, title, item, .. } => x == id || x == title || x == item || x
            == "item"@,
        quest::TaskModel::Kill { id, title, entity, .. } => x == id || x == title || x == entity
            || x == "kill"@,
        quest::TaskModel::Unsupported { kind, raw } => x == kind || x == notation::written(raw),
    }
}

pub open spec fn reward_has_text(reward: quest::RewardModel, x: Seq<char>) -> bool {
    match reward {
        quest::RewardModel::Xp { id, amount, .. } => x == id || x == compose::decimal(
            amount as nat,
        ) || x == "xp"@,
        quest::RewardModel::Item { id, item, count, .. } => x == id || x == item || x
            == compose::decimal(count as nat) || x == "item"@,
        quest::RewardModel::Unsupported { kind, raw } => x == kind || x == notation::written(raw),
    }
}

/// The texts that a quest can be found by, besides its id and its title: its description, its icon,
/// its subtitle and its tags, the titles of its chapter and its group, the file of its chapter, and
/// what its tasks and rewards say. What can be translated counts both as it is shown and as it
/// stands in the book.
pub open spec fn quest_has_text(book: editor::BookModel, c: int, i: int, x: Seq<char>) -> bool {
    let chapter = book.chapters[c];
    let q = chapter.quests[i];
    let catalog = book.translations;
    ||| x == translation::shown(catalog, q.description)
    ||| x == q.description
    ||| x == q.icon
    ||| x == translation::shown(catalog, chapter.title)
    ||| x == chapter.title
    ||| x == translation::shown(catalog, search::title_of_group(book.groups, chapter.group))
    ||| x == chapter.filename
    ||| x == translation::shown(catalog, q.settings.subtitle)
    ||| x == q.settings.subtitle
    ||| q.settings.tags.contains(x)
    ||| exists|k: int| 0 <= k < q.tasks.len() && task_has_text(#[trigger] q.tasks[k], x)
    ||| exists|k: int| 0 <= k < q.rewards.len() && reward_has_text(#[trigger] q.rewards[k], x)
}

proof fn lemma_task_words(task: quest::TaskModel) -> (rest: Seq<char>)
    ensures
        search::task_words(task) == " "@ + rest,
        forall|x: Seq<char>| #[trigger] task_has_text(task, x) ==> is_word_of(rest, x),
{
    reveal_strlit(" ");
    reveal_strlit(" checkmark");
    reveal_strlit("checkmark");
    reveal_strlit(" item");
    reveal_strlit("item");
    reveal_strlit(" kill");
    reveal_strlit("kill");
    assert(" checkmark"@ =~= " "@ + "checkmark"@);
    assert(" item"@ =~= " "@ + "item"@);
    assert(" kill"@ =~= " "@ + "kill"@);
    let parts = match task {
        quest::TaskModel::Checkmark { id, title, .. } => seq![id, title, "checkmark"@],
        quest::TaskModel::Item { id, title, item, .. } => seq![id, title, item, "item"@],
        quest::TaskModel::Kill { id, title, entity, .. } => seq![id, title, entity, "kill"@],
        quest::TaskModel::Unsupported { kind, raw } => seq![kind, notation::written(raw)],
    };
    let rest = compose::joined(parts, " "@);
    lemma_joined_few(parts);
    assert(search::task_words(task) =~= " "@ + rest);
    assert forall|x: Seq<char>| #[trigger] task_has_text(task, x) implies is_word_of(rest, x) by {
        lemma_joined_words(parts, 0);
        lemma_joined_words(parts, 1);
        if parts.len() > 2 {
            lemma_joined_words(parts, 2);
        }
        if parts.len() > 3 {
            lemma_joined_words(parts, 3);
        }
    }
    rest
}

proof fn lemma_joined_few(parts: Seq<Seq<char>>)
    requires
        2 <= parts.len() <= 4,
    ensures
        parts.len() == 2 ==> compose::joined(parts, " "@) == parts[0] + " "@ + parts[1],
        parts.len() == 3 ==> compose::joined(parts, " "@) == parts[0] + " "@ + parts[1] + " "@
            + parts[2],
        parts.len() == 4 ==> compose::joined(parts, " "@) == parts[0] + " "@ + parts[1] + " "@
            + parts[2] + " "@ + parts[3],
{
    reveal_with_fuel(compose::joined, 4);
    let a = parts.drop_last();
    let b = a.drop_last();
    let c = b.drop_last();
}

proof fn lemma_reward_words(reward: quest::RewardModel) -> (rest: Seq<char>)
    ensures
        search::reward_words(reward) == " "@ + rest,
        forall|x: Seq<char>| #[trigger] reward_has_text(reward, x) ==> is_word_of(rest, x),
{
    reveal_strlit(" ");
    reveal_strlit(" xp");
    reveal_strlit("xp");
    reveal_strlit(" item");
    reveal_strlit("item");
    assert(" xp"@ =~= " "@ + "xp"@);
    assert(" item"@ =~= " "@ + "item"@);
    let parts = match reward {
        quest::RewardModel::Xp { id, amount, .. } => seq![
            id,
            compose::decimal(amount as nat),
            "xp"@,
        ],
        quest::RewardModel::Item { id, item, count, .. } => seq![
            id,
            item,
            compose::decimal(count as nat),
            "item"@,
        ],
        quest::RewardModel::Unsupported { kind, raw } => seq![kind, notation::written(raw)],
    };
    let rest = compose::joined(parts, " "@);
    lemma_joined_few(parts);
    assert(search::reward_words(reward) =~= " "@ + rest);
    assert forall|x: Seq<char>| #[trigger] reward_has_text(reward, x) implies is_word_of(
        rest,
        x,
    ) by {
        lemma_joined_words(parts, 0);
        lemma_joined_words(parts, 1);
        if parts.len() > 2 {
            lemma_joined_words(parts, 2);
        }
        if parts.len() > 3 {
            lemma_joined_words(parts, 3);
        }
    }
    rest
}

/// The words of the tasks hold those of each task, set off by a space before and behind.
proof fn lemma_tasks_words(tasks: Seq<quest::TaskModel>, k: int) -> (sides: (Seq<char>, Seq<char>))
    requires
        0 <= k < tasks.len(),
    ensures
        search::tasks_words(tasks) == sides.0 + search::task_words(tasks[k]) + sides.1,
        sides.1.len() == 0 || sides.1[0] == ' ',
    decreases tasks.len(),
{
    reveal_strlit(" ");
    let front = tasks.drop_last();
    let all = search::tasks_words(tasks);
    let last = search::task_words(tasks.last());
    if k == tasks.len() - 1 {
        assert(all =~= search::tasks_words(front) + last + Seq::<char>::empty());
        (search::tasks_words(front), Seq::empty())
    } else {
        let sides = lemma_tasks_words(front, k);
        let rest = lemma_task_words(tasks.last());
        assert(front[k] == tasks[k]);
        let after = sides.1 + last;
        assert(all =~= sides.0 + search::task_words(tasks[k]) + after);
        if sides.1.len() > 0 {
            assert(after[0] == sides.1[0]);
        } else {
            assert(after[0] == last[0]);
            assert(last[0] == " "@[0]);
        }
        (sides.0, after)
    }
}

proof fn lemma_rewards_words(rewards: Seq<quest::RewardModel>, k: int) -> (sides: (
    Seq<char>,
    Seq<char>,
))
    requires
        0 <= k < rewards.len(),
    ensures
        search::rewards_words(rewards) == sides.0 + search::reward_words(rewards[k]) + sides.1,
        sides.1.len() == 0 || sides.1[0] == ' ',
    decreases rewards.len(),
{
    reveal_strlit(" ");
    let front = rewards.drop_last();
    let all = search::rewards_words(rewards);
    let last = search::reward_words(rewards.last());
    if k == rewards.len() - 1 {
        assert(all =~= search::rewards_words(front) + last + Seq::<char>::empty());
        (search::rewards_words(front), Seq::empty())
    } else {
        let sides = lemma_rewards_words(front, k);
        let rest = lemma_reward_words(rewards.last());
        assert(front[k] == rewards[k]);
        let after = sides.1 + last;
        assert(all =~= sides.0 + search::reward_words(rewards[k]) + after);
        if sides.1.len() > 0 {
            assert(after[0] == sides.1[0]);
        } else {
            assert(after[0] == last[0]);
            assert(last[0] == " "@[0]);
        }
        (sides.0, after)
    }
}

proof fn lemma_tasks_words_start(tasks: Seq<quest::TaskModel>)
    ensures
        search::tasks_words(tasks).len() == 0 || search::tasks_words(tasks)[0] == ' ',
    decreases tasks.len(),
{
    reveal_strlit(" ");
    if tasks.len() > 0 {
        lemma_tasks_words_start(tasks.drop_last());
        let rest = lemma_task_words(tasks.last());
        let before = search::tasks_words(tasks.drop_last());
        let all = search::tasks_words(tasks);
        if before.len() > 0 {
            assert(all[0] == before[0]);
        } else {
            assert(all[0] == search::task_words(tasks.last())[0]);
            assert(search::task_words(tasks.last())[0] == " "@[0]);
        }
    }
}

proof fn lemma_rewards_words_start(rewards: Seq<quest::RewardModel>)
    ensures
        search::rewards_words(rewards).len() == 0 || search::rewards_words(rewards)[0] == ' ',
    decreases rewards.len(),
{
    reveal_strlit(" ");
    if rewards.len() > 0 {
        lemma_rewards_words_start(rewards.drop_last());
        let rest = lemma_reward_words(rewards.last());
        let before = search::rewards_words(rewards.drop_last());
        let all = search::rewards_words(rewards);
        if before.len() > 0 {
            assert(all[0] == before[0]);
        } else {
            assert(all[0] == search::reward_words(rewards.last())[0]);
            assert(search::reward_words(rewards.last())[0] == " "@[0]);
        }
    }
}

/// The texts at the head of the words of a quest.
spec fn head_parts(book: editor::BookModel, c: int, i: int) -> Seq<Seq<char>> {
    let chapter = book.chapters[c];
    let q = chapter.quests[i];
    let catalog = book.translations;
    seq![
        translation::shown(catalog, q.description),
        q.description,
        q.icon,
        translation::shown(catalog, chapter.title),
        chapter.title,
        translation::shown(catalog, search::title_of_group(book.groups, chapter.group)),
        chapter.filename,
        translation::shown(catalog, q.settings.subtitle),
        q.settings.subtitle,
        compose::joined(q.settings.tags, " "@),
    ]
}

proof fn lemma_joined_next(parts: Seq<Seq<char>>, part: Seq<char>)
    requires
        parts.len() > 0,
    ensures
        compose::joined(parts.push(part), " "@) == compose::joined(parts, " "@) + " "@ + part,
{
    assert(parts.push(part).drop_last() =~= parts);
}

proof fn lemma_head(book: editor::BookModel, c: int, i: int)
    ensures
        search::quest_words(
            book.translations,
            search::titles_of(book, book.chapters[c]),
            book.chapters[c],
            book.chapters[c].quests[i],
        ) == compose::joined(head_parts(book, c, i), " "@) + search::tasks_words(
            book.chapters[c].quests[i].tasks,
        ) + search::rewards_words(book.chapters[c].quests[i].rewards),
{
    let p = head_parts(book, c, i);
    let one = seq![p[0]];
    assert(compose::joined(one, " "@) == p[0]);
    lemma_joined_next(one, p[1]);
    let two = one.push(p[1]);
    lemma_joined_next(two, p[2]);
    let three = two.push(p[2]);
    lemma_joined_next(three, p[3]);
    let four = three.push(p[3]);
    lemma_joined_next(four, p[4]);
    let five = four.push(p[4]);
    lemma_joined_next(five, p[5]);
    let six = five.push(p[5]);
    lemma_joined_next(six, p[6]);
    let seven = six.push(p[6]);
    lemma_joined_next(seven, p[7]);
    let eight = seven.push(p[7]);
    lemma_joined_next(eight, p[8]);
    let nine = eight.push(p[8]);
    lemma_joined_next(nine, p[9]);
    assert(nine.push(p[9]) =~= p);
}

proof fn lemma_head_word(head: Seq<char>, tasks: Seq<char>, rewards: Seq<char>)
    requires
        tasks.len() == 0 || tasks[0] == ' ',
        rewards.len() == 0 || rewards[0] == ' ',
    ensures
        is_word_of(head + tasks + rewards, head),
{
    let tail = tasks + rewards;
    if tasks.len() > 0 {
        assert(tail[0] == tasks[0]);
    } else {
        assert(tail =~= rewards);
    }
    assert(head + tasks + rewards =~= Seq::<char>::empty() + head + tail);
    lemma_set_off(head + tasks + rewards, Seq::empty(), head, tail);
}

proof fn lemma_entry_word(
    head: Seq<char>,
    before: Seq<char>,
    entry: Seq<char>,
    after: Seq<char>,
    tail: Seq<char>,
)
    requires
        after.len() == 0 || after[0] == ' ',
        tail.len() == 0 || tail[0] == ' ',
    ensures
        is_word_of(head + (before + (" "@ + entry) + after) + tail, entry),
{
    reveal_strlit(" ");
    let words = head + (before + (" "@ + entry) + after) + tail;
    let a = head + before + " "@;
    let b = after + tail;
    assert(words =~= a + entry + b);
    assert(a.last() == ' ');
    if after.len() > 0 {
        assert(b[0] == after[0]);
    } else {
        assert(b =~= tail);
    }
    lemma_set_off(words, a, entry, b);
}

proof fn lemma_head_texts(book: editor::BookModel, c: int, i: int, x: Seq<char>)
    requires
        quest_has_text(book, c, i, x),
    ensures
        is_word_of(compose::joined(head_parts(book, c, i), " "@), x) || (exists|k: int|
            0 <= k < book.chapters[c].quests[i].tasks.len() && task_has_text(
                #[trigger] book.chapters[c].quests[i].tasks[k],
                x,
            )) || (exists|k: int|
            0 <= k < book.chapters[c].quests[i].rewards.len() && reward_has_text(
                #[trigger] book.chapters[c].quests[i].rewards[k],
                x,
            )),
{
    let q = book.chapters[c].quests[i];
    let p = head_parts(book, c, i);
    if q.settings.tags.contains(x) {
        let k = choose|k: int| 0 <= k < q.settings.tags.len() && q.settings.tags[k] == x;
        lemma_joined_words(q.settings.tags, k);
        lemma_joined_words(p, 9);
        lemma_word_inside(compose::joined(p, " "@), p[9], x);
    } else {
        lemma_joined_words(p, 0);
        lemma_joined_words(p, 1);
        lemma_joined_words(p, 2);
        lemma_joined_words(p, 3);
        lemma_joined_words(p, 4);
        lemma_joined_words(p, 5);
        lemma_joined_words(p, 6);
        lemma_joined_words(p, 7);
        lemma_joined_words(p, 8);
    }
}

proof fn lemma_quest_words(book: editor::BookModel, c: int, i: int, x: Seq<char>)
    requires
        quest_has_text(book, c, i, x),
    ensures
        is_word_of(
            search::quest_words(
                book.translations,
                search::titles_of(book, book.chapters[c]),
                book.chapters[c],
                book.chapters[c].quests[i],
            ),
            x,
        ),
{
    let q = book.chapters[c].quests[i];
    let head = compose::joined(head_parts(book, c, i), " "@);
    let tasks = search::tasks_words(q.tasks);
    let rewards = search::rewards_words(q.rewards);
    let words = head + tasks + rewards;
    lemma_head(book, c, i);
    lemma_tasks_words_start(q.tasks);
    lemma_rewards_words_start(q.rewards);
    lemma_head_texts(book, c, i, x);
    if is_word_of(head, x) {
        lemma_head_word(head, tasks, rewards);
        lemma_word_inside(words, head, x);
    } else if exists|k: int| 0 <= k < q.tasks.len() && task_has_text(#[trigger] q.tasks[k], x) {
        let k = choose|k: int| 0 <= k < q.tasks.len() && task_has_text(#[trigger] q.tasks[k], x);
        let sides = lemma_tasks_words(q.tasks, k);
        let rest = lemma_task_words(q.tasks[k]);
        lemma_entry_word(head, sides.0, rest, sides.1, rewards);
        lemma_word_inside(words, rest, x);
    } else {
        let k = choose|k: int|
            0 <= k < q.rewards.len() && reward_has_text(#[trigger] q.rewards[k], x);
        let sides = lemma_rewards_words(q.rewards, k);
        let rest = lemma_reward_words(q.rewards[k]);
        lemma_entry_word(head + tasks, sides.0, rest, sides.1, Seq::empty());
        assert(words + Seq::<char>::empty() =~= words);
        lemma_word_inside(words, rest, x);
    }
}

/// The texts that a quest can be found by all stand in one text, each set off by spaces, and the
/// quest is found if and only if the query stands in small letters in its id, in its title or in
/// that text.
pub proof fn law_quest_is_found_by_its_texts(
    book: editor::BookModel,
    c: int,
    i: int,
    query: Seq<char>,
    places: Seq<Vec<String>>,
) -> (words: Seq<char>)
    ensures
        forall|x: Seq<char>| #[trigger] quest_has_text(book, c, i, x) ==> is_word_of(words, x),
        search::quest_hit(book, c, i, query, places) is Some <==> {
            ||| text::has_text(letters::lowercase(book.chapters[c].quests[i].id), query)
            ||| text::has_text(
                letters::lowercase(
                    translation::shown(book.translations, book.chapters[c].quests[i].title),
                ),
                query,
            )
            ||| text::has_text(letters::lowercase(words), query)
        },
{
    let q = book.chapters[c].quests[i];
    let words = search::quest_words(
        book.translations,
        search::titles_of(book, book.chapters[c]),
        book.chapters[c],
        q,
    );
    assert forall|x: Seq<char>| #[trigger] quest_has_text(book, c, i, x) implies is_word_of(
        words,
        x,
    ) by {
        lemma_quest_words(book, c, i, x);
    }
    law_scores_say_how_well_it_fits(
        query,
        letters::lowercase(q.id),
        letters::lowercase(translation::shown(book.translations, q.title)),
        letters::lowercase(words),
    );
    words
}

/// Where lower case is made word by word, a quest is found by each of its texts: by its
/// description, its icon, its subtitle, a tag, or what a task or a reward says.
pub proof fn law_quest_is_found_by_each_text(
    book: editor::BookModel,
    c: int,
    i: int,
    x: Seq<char>,
    query: Seq<char>,
    places: Seq<Vec<String>>,
)
    ensures
        lowers_word_by_word() && quest_has_text(book, c, i, x) && text::has_text(
            letters::lowercase(x),
            query,
        ) ==> search::quest_hit(book, c, i, query, places) is Some,
{
    let words = law_quest_is_found_by_its_texts(book, c, i, query, places);
    if lowers_word_by_word() && quest_has_text(book, c, i, x) && text::has_text(
        letters::lowercase(x),
        query,
    ) {
        lemma_lowered_word(words, x, query);
    }
}

/// A chapter is found if and only if the query stands in small letters in its id, in its title as
/// it is shown, or in the text of its file name, its title as it stands and that of its group, as it
/// is shown and as it stands.
pub proof fn law_chapter_is_found_by_its_texts(
    book: editor::BookModel,
    c: int,
    query: Seq<char>,
) -> (words: Seq<char>)
    ensures
        is_word_of(words, book.chapters[c].filename),
        is_word_of(words, book.chapters[c].title),
        is_word_of(words, search::title_of_group(book.groups, book.chapters[c].group)),
        is_word_of(
            words,
            translation::shown(
                book.translations,
                search::title_of_group(book.groups, book.chapters[c].group),
            ),
        ),
        search::chapter_hit(book, c, query) is Some <==> {
            ||| text::has_text(letters::lowercase(book.chapters[c].id), query)
            ||| text::has_text(
                letters::lowercase(
                    translation::shown(book.translations, book.chapters[c].title),
                ),
                query,
            )
            ||| text::has_text(letters::lowercase(words), query)
        },
{
    let chapter = book.chapters[c];
    let raw = search::title_of_group(book.groups, chapter.group);
    let parts = seq![
        chapter.filename,
        translation::shown(book.translations, raw),
        chapter.title,
        raw,
    ];
    let words = chapter.filename + " "@ + translation::shown(book.translations, raw) + " "@
        + chapter.title + " "@ + raw;
    lemma_joined_few(parts);
    lemma_joined_words(parts, 0);
    lemma_joined_words(parts, 1);
    lemma_joined_words(parts, 2);
    lemma_joined_words(parts, 3);
    law_scores_say_how_well_it_fits(
        query,
        letters::lowercase(chapter.id),
        letters::lowercase(translation::shown(book.translations, chapter.title)),
        letters::lowercase(words),
    );
    words
}

/// A group is found if and only if the query stands in small letters in its id or in its title, as
/// it is shown or as it stands.
pub proof fn law_group_is_found_by_its_texts(
    catalog: translation::CatalogModel,
    group: quest::GroupModel,
    query: Seq<char>,
)
    ensures
        search::group_hit(catalog, group, query) is Some <==> {
            ||| text::has_text(letters::lowercase(group.id), query)
            ||| text::has_text(letters::lowercase(translation::shown(catalog, group.title)), query)
            ||| text::has_text(letters::lowercase(group.title), query)
        },
{
    law_scores_say_how_well_it_fits(
        query,
        letters::lowercase(group.id),
        letters::lowercase(translation::shown(catalog, group.title)),
        letters::lowercase(group.title),
    );
}

// ---------------------------------------------------------------------------
// Scores
// ---------------------------------------------------------------------------

proof fn lemma_stands_whole(s: Seq<char>)
    ensures
        text::stands_at(s, s, 0),
{
    assert(s.subrange(0, s.len() as int) =~= s);
}

/// The score says how well something fits, and a smaller one is better: the id is the query, the
/// title is, the id begins with it, the title does, the id holds it, the title does, or only the
/// details do. Nothing is found where none holds it.
pub proof fn law_scores_say_how_well_it_fits(
    query: Seq<char>,
    id: Seq<char>,
    title: Seq<char>,
    details: Seq<char>,
)
    ensures
        ({
            let score = search::score_of(query, id, title, details);
            &&& id == query <==> score == Some(0u8)
            &&& title == query && id != query <==> score == Some(1u8)
            &&& (score == Some(2u8) || score == Some(0u8)) ==> id.take(query.len() as int) == query
            &&& score == Some(3u8) ==> title.take(query.len() as int) == query
            &&& text::has_text(id, query) ==> (score matches Some(k) && k <= 4)
            &&& text::has_text(title, query) ==> (score matches Some(k) && k <= 5)
            &&& text::has_text(details, query) ==> (score matches Some(k) && k <= 6)
            &&& score == Some(4u8) ==> text::has_text(id, query)
            &&& score == Some(5u8) ==> text::has_text(title, query) && !text::has_text(id, query)
            &&& score == Some(6u8) ==> text::has_text(details, query) && !text::has_text(id, query)
                && !text::has_text(title, query)
            &&& score is Some <==> text::has_text(id, query) || text::has_text(title, query)
                || text::has_text(details, query)
            &&& query.len() <= id.len() && id.take(query.len() as int) == query ==> (
            score matches Some(k) && k <= 2)
            &&& query.len() <= title.len() && title.take(query.len() as int) == query ==> (
            score matches Some(k) && k <= 3)
        }),
{
    lemma_stands_whole(query);
    assert(id.take(query.len() as int) =~= id.subrange(0, query.len() as int));
    assert(title.take(query.len() as int) =~= title.subrange(0, query.len() as int));
    if id == query {
        assert(text::stands_at(id, query, 0));
    }
    if title == query {
        assert(text::stands_at(title, query, 0));
    }
    if text::has_prefix(id, query) {
        assert(text::stands_at(id, query, 0));
    }
    if text::has_prefix(title, query) {
        assert(text::stands_at(title, query, 0));
    }
}

/// A hit says what was found: its target is the group, the chapter or the quest itself, and it is
/// named by the title as it is shown.
pub proof fn law_hits_say_what_was_found(
    book: editor::BookModel,
    g: int,
    c: int,
    i: int,
    query: Seq<char>,
    places: Seq<Vec<String>>,
)
    ensures
        search::group_hit(book.translations, book.groups[g], query) matches Some(hit) ==> {
            &&& hit.target == search::TargetModel::Group(book.groups[g].id)
            &&& hit.title == "Группа: "@ + translation::shown(
                book.translations,
                book.groups[g].title,
            )
        },
        search::chapter_hit(book, c, query) matches Some(hit) ==> {
            &&& hit.target == search::TargetModel::Chapter(c)
            &&& hit.title == "Глава: "@ + translation::shown(
                book.translations,
                book.chapters[c].title,
            )
        },
        search::quest_hit(book, c, i, query, places) matches Some(hit) ==> {
            &&& hit.target == search::TargetModel::Quest(c, book.chapters[c].quests[i].id)
            &&& hit.title == "Квест: "@ + translation::shown(
                book.translations,
                book.chapters[c].quests[i].title,
            )
            &&& text::has_text(hit.subtitle, book.chapters[c].quests[i].id)
            &&& text::has_text(
                hit.subtitle,
                translation::shown(book.translations, book.chapters[c].title),
            )
        },
{
    if let Some(hit) = search::quest_hit(book, c, i, query, places) {
        let chapter = book.chapters[c];
        let id = chapter.quests[i].id;
        let titles = search::titles_of(book, chapter);
        let a = titles.group + " / "@;
        let b = " · ID "@ + id + " · ["@ + search::place_label(places, c, i) + "]"@;
        assert(hit.subtitle =~= a + titles.chapter + b);
        lemma_stands_whole(titles.chapter);
        lemma_text_inside(hit.subtitle, a, titles.chapter, b, titles.chapter);
        let l = titles.group + " / "@ + titles.chapter + " · ID "@;
        let r = " · ["@ + search::place_label(places, c, i) + "]"@;
        assert(hit.subtitle =~= l + id + r);
        lemma_stands_whole(id);
        lemma_text_inside(hit.subtitle, l, id, r, id);
    }
}

// ---------------------------------------------------------------------------
// All hits
// ---------------------------------------------------------------------------

pub open spec fn is_group_hit(
    book: editor::BookModel,
    n: int,
    query: Seq<char>,
    h: search::HitModel,
) -> bool {
    exists|g: int|
        0 <= g < n && #[trigger] search::group_hit(book.translations, book.groups[g], query)
            == Some(h)
}

pub open spec fn is_chapter_hit(
    book: editor::BookModel,
    n: int,
    query: Seq<char>,
    h: search::HitModel,
) -> bool {
    exists|c: int| 0 <= c < n && #[trigger] search::chapter_hit(book, c, query) == Some(h)
}

pub open spec fn is_quest_hit(
    book: editor::BookModel,
    c: int,
    n: int,
    query: Seq<char>,
    places: Seq<Vec<String>>,
    h: search::HitModel,
) -> bool {
    exists|i: int|
        0 <= i < n && #[trigger] search::quest_hit(book, c, i, query, places) == Some(h)
}

pub open spec fn is_any_quest_hit(
    book: editor::BookModel,
    n: int,
    query: Seq<char>,
    places: Seq<Vec<String>>,
    h: search::HitModel,
) -> bool {
    exists|c: int|
        0 <= c < n && #[trigger] is_quest_hit(
            book,
            c,
            book.chapters[c].quests.len() as int,
            query,
            places,
            h,
        )
}

proof fn lemma_and_hit(hits: Seq<search::HitModel>, hit: Option<search::HitModel>, h: search::HitModel)
    ensures
        search::and_hit(hits, hit).contains(h) <==> hits.contains(h) || hit == Some(h),
{
    let all = search::and_hit(hits, hit);
    if hits.contains(h) {
        let i = choose|i: int| 0 <= i < hits.len() && hits[i] == h;
        assert(all[i] == h);
    }
    if hit == Some(h) {
        assert(all[hits.len() as int] == h);
    }
    if all.contains(h) {
        let i = choose|i: int| 0 <= i < all.len() && all[i] == h;
        if i < hits.len() {
            assert(hits[i] == h);
        }
    }
}

proof fn lemma_group_hits(book: editor::BookModel, n: int, query: Seq<char>, h: search::HitModel)
    ensures
        search::group_hits(book, n, query).contains(h) <==> is_group_hit(book, n, query, h),
    decreases n,
{
    if n > 0 {
        lemma_group_hits(book, n - 1, query, h);
        lemma_and_hit(
            search::group_hits(book, n - 1, query),
            search::group_hit(book.translations, book.groups[n - 1], query),
            h,
        );
        if is_group_hit(book, n, query, h) {
            let g = choose|g: int|
                0 <= g < n && #[trigger] search::group_hit(book.translations, book.groups[g], query)
                    == Some(h);
            if g < n - 1 {
                assert(is_group_hit(book, n - 1, query, h));
            }
        }
    }
}

proof fn lemma_quest_hits(
    hits: Seq<search::HitModel>,
    book: editor::BookModel,
    c: int,
    n: int,
    query: Seq<char>,
    places: Seq<Vec<String>>,
    h: search::HitModel,
)
    ensures
        search::quest_hits(hits, book, c, n, query, places).contains(h) <==> hits.contains(h)
            || is_quest_hit(book, c, n, query, places, h),
    decreases n,
{
    if n > 0 {
        lemma_quest_hits(hits, book, c, n - 1, query, places, h);
        lemma_and_hit(
            search::quest_hits(hits, book, c, n - 1, query, places),
            search::quest_hit(book, c, n - 1, query, places),
            h,
        );
        if is_quest_hit(book, c, n, query, places, h) {
            let i = choose|i: int|
                0 <= i < n && #[trigger] search::quest_hit(book, c, i, query, places) == Some(h);
            if i < n - 1 {
                assert(is_quest_hit(book, c, n - 1, query, places, h));
            }
        }
    }
}

proof fn lemma_chapter_hits(
    hits: Seq<search::HitModel>,
    book: editor::BookModel,
    n: int,
    query: Seq<char>,
    places: Seq<Vec<String>>,
    h: search::HitModel,
)
    ensures
        search::chapter_hits(hits, book, n, query, places).contains(h) <==> hits.contains(h)
            || is_chapter_hit(book, n, query, h) || is_any_quest_hit(book, n, query, places, h),
    decreases n,
{
    if n > 0 {
        let before = search::chapter_hits(hits, book, n - 1, query, places);
        let with_chapter = search::and_hit(before, search::chapter_hit(book, n - 1, query));
        let m = book.chapters[n - 1].quests.len() as int;
        lemma_chapter_hits(hits, book, n - 1, query, places, h);
        lemma_and_hit(before, search::chapter_hit(book, n - 1, query), h);
        lemma_quest_hits(with_chapter, book, n - 1, m, query, places, h);
        if is_chapter_hit(book, n, query, h) {
            let c = choose|c: int|
                0 <= c < n && #[trigger] search::chapter_hit(book, c, query) == Some(h);
            if c < n - 1 {
                assert(is_chapter_hit(book, n - 1, query, h));
            }
        }
        if is_any_quest_hit(book, n, query, places, h) {
            let c = choose|c: int|
                0 <= c < n && #[trigger] is_quest_hit(
                    book,
                    c,
                    book.chapters[c].quests.len() as int,
                    query,
                    places,
                    h,
                );
            if c < n - 1 {
                assert(is_any_quest_hit(book, n - 1, query, places, h));
            }
        }
        if is_quest_hit(book, n - 1, m, query, places, h) {
            assert(is_any_quest_hit(book, n, query, places, h));
        }
        if is_any_quest_hit(book, n - 1, query, places, h) {
            let c = choose|c: int|
                0 <= c < n - 1 && #[trigger] is_quest_hit(
                    book,
                    c,
                    book.chapters[c].quests.len() as int,
                    query,
                    places,
                    h,
                );
            assert(is_quest_hit(
                book,
                c,
                book.chapters[c].quests.len() as int,
                query,
                places,
                h,
            ));
        }
    }
}

/// The hits are those of the groups, of the chapters and of the quests that fit, and no others.
pub proof fn law_all_that_fits_is_found(
    book: editor::BookModel,
    query: Seq<char>,
    places: Seq<Vec<String>>,
    h: search::HitModel,
)
    ensures
        search::all_hits(book, query, places).contains(h) <==> {
            ||| exists|g: int|
                0 <= g < book.groups.len() && #[trigger] search::group_hit(
                    book.translations,
                    book.groups[g],
                    query,
                ) == Some(h)
            ||| exists|c: int|
                0 <= c < book.chapters.len() && #[trigger] search::chapter_hit(book, c, query)
                    == Some(h)
            ||| exists|c: int, i: int|
                0 <= c < book.chapters.len() && 0 <= i < book.chapters[c].quests.len()
                    && #[trigger] search::quest_hit(book, c, i, query, places) == Some(h)
        },
{
    let groups = book.groups.len() as int;
    let chapters = book.chapters.len() as int;
    lemma_group_hits(book, groups, query, h);
    lemma_chapter_hits(
        search::group_hits(book, groups, query),
        book,
        chapters,
        query,
        places,
        h,
    );
    if is_any_quest_hit(book, chapters, query, places, h) {
        let c = choose|c: int|
            0 <= c < chapters && #[trigger] is_quest_hit(
                book,
                c,
                book.chapters[c].quests.len() as int,
                query,
                places,
                h,
            );
        let i = choose|i: int|
            0 <= i < book.chapters[c].quests.len() && #[trigger] search::quest_hit(
                book,
                c,
                i,
                query,
                places,
            ) == Some(h);
        assert(search::quest_hit(book, c, i, query, places) == Some(h));
    }
    if exists|c: int, i: int|
        0 <= c < chapters && 0 <= i < book.chapters[c].quests.len() && #[trigger] search::quest_hit(
            book,
            c,
            i,
            query,
            places,
        ) == Some(h) {
        let (c, i) = choose|c: int, i: int|
            0 <= c < chapters && 0 <= i < book.chapters[c].quests.len()
                && #[trigger] search::quest_hit(book, c, i, query, places) == Some(h);
        assert(is_quest_hit(book, c, book.chapters[c].quests.len() as int, query, places, h));
    }
}

/// What is shown are the best two hundred and fifty hits, or all where there are no more: none that
/// is left out has a better score than one that is shown.
pub proof fn law_best_hits_are_shown(hits: Seq<search::HitModel>)
    ensures
        ({
            let sorted = search::sorted_hits(hits);
            let shown = search::first_hits(sorted);
            &&& sorted.to_multiset() == hits.to_multiset()
            &&& hits.len() <= 250 ==> shown == sorted
            &&& hits.len() > 250 ==> shown == sorted.take(250)
            &&& forall|i: int, j: int|
                #![trigger shown[i], sorted[j]]
                0 <= i < shown.len() && i <= j < sorted.len() ==> shown[i].score
                    <= sorted[j].score
        }),
{
    let before = |a: search::HitModel, b: search::HitModel| search::fits_better(a, b);
    order::lemma_sorted_keeps(hits, before);
    let sorted = search::sorted_hits(hits);
    let shown = search::first_hits(sorted);
    sorted.to_multiset_ensures();
    hits.to_multiset_ensures();
    assert(sorted.len() == hits.len());
    assert forall|i: int, j: int|
        #![trigger shown[i], sorted[j]]
        0 <= i < shown.len() && i <= j < sorted.len() implies shown[i].score <= sorted[j].score by {
        assert(shown[i] == sorted[i]);
        if i < j {
            search::law_better_hits_come_first(hits, i, j);
        }
    }
}

} // verus!
