//! What reading gives back of tasks and rewards that were written.

use crate::compose;
use crate::digits;
use crate::export;
use crate::import;
use crate::layout;
use crate::layout_laws;
use crate::notation;
use crate::notation_laws;
use crate::quest;
use crate::saved_fields;
use crate::snbt;
use crate::table;
use vstd::prelude::*;

verus! {

/// A value that an entry was read from has fields.
pub open spec fn is_entry(n: notation::Node) -> bool {
    n is Compound && notation::well_formed(n)
}

pub open spec fn is_entry_or_none(raw: Option<notation::Node>) -> bool {
    raw matches Some(n) ==> is_entry(n)
}

/// A new item in place of one with a count of its own takes that count away: it is still the
/// count of the entry if the entry has it too, or if it is one.
pub open spec fn keeps_count(
    raw: Option<notation::Node>,
    item: Seq<char>,
    count: u32,
    numbers: Seq<(Seq<char>, import::ReadingModel)>,
) -> bool {
    raw matches Some(n) ==> {
        ||| item == import::item_or_empty(snbt::field(n, "item"@))
        ||| count != import::item_count_of(n, numbers)
        ||| count == 1
        ||| import::count_at(n, "count"@, numbers) is Some
    }
}

/// How many of its item an entry means after it was written and read.
pub open spec fn kept_count(
    raw: Option<notation::Node>,
    item: Seq<char>,
    count: u32,
    numbers: Seq<(Seq<char>, import::ReadingModel)>,
) -> u32 {
    if keeps_count(raw, item, count, numbers) {
        count
    } else {
        1
    }
}

/// A text in a field changes that field and no other.
proof fn lemma_with_scalar(n: notation::Node, key: Seq<char>, s: Seq<char>)
    requires
        is_entry(n),
    ensures
        is_entry(export::with_scalar(n, key, s)),
        forall|k: Seq<char>| #[trigger]
            snbt::field(export::with_scalar(n, key, s), k) == (if k == key {
                Some(notation::Node::Scalar(s))
            } else {
                snbt::field(n, k)
            }),
{
    let entries = n->Compound_0;
    notation_laws::lemma_well_formed_upsert(entries, key, notation::Node::Scalar(s));
    table::lemma_upsert(entries, key, notation::Node::Scalar(s));
}

// ---------------------------------------------------------------------------
// Tasks
// ---------------------------------------------------------------------------

/// The fields of a task that was not read.
pub open spec fn task_fields(task: quest::TaskModel) -> Seq<(Seq<char>, notation::Node)> {
    match task {
        quest::TaskModel::Checkmark { id, title, raw } => seq![
            ("id"@, notation::Node::Scalar(id)),
            ("title"@, notation::Node::Scalar(title)),
            ("type"@, notation::Node::Scalar("checkmark"@)),
        ],
        quest::TaskModel::Item { id, title, item, count, raw } => seq![
            ("count"@, saved_fields::long_count_node(count)),
            ("id"@, notation::Node::Scalar(id)),
            ("item"@, notation::Node::Scalar(item)),
            ("title"@, notation::Node::Scalar(title)),
            ("type"@, notation::Node::Scalar("item"@)),
        ],
        quest::TaskModel::Kill { id, title, entity, count, raw } => seq![
            ("entity"@, notation::Node::Scalar(entity)),
            ("id"@, notation::Node::Scalar(id)),
            ("title"@, notation::Node::Scalar(title)),
            ("type"@, notation::Node::Scalar("kill"@)),
            ("value"@, saved_fields::long_count_node(count)),
        ],
        quest::TaskModel::Unsupported { kind, raw } => Seq::empty(),
    }
}

/// The value that a written task is read as.
pub open spec fn task_node(
    task: quest::TaskModel,
    numbers: Seq<(Seq<char>, import::ReadingModel)>,
) -> notation::Node {
    match export::merged_task(task, numbers) {
        Some(n) => n,
        None => notation::Node::Compound(layout_laws::assembled(task_fields(task))),
    }
}

/// The task as it is after it was written and read: it keeps the value it is read from, and the
/// count that is not taken away with an old item.
pub open spec fn settled_task(
    task: quest::TaskModel,
    numbers: Seq<(Seq<char>, import::ReadingModel)>,
) -> quest::TaskModel {
    let read = Some(task_node(task, numbers));
    match task {
        quest::TaskModel::Checkmark { id, title, raw } => quest::TaskModel::Checkmark {
            id,
            title,
            raw: read,
        },
        quest::TaskModel::Item { id, title, item, count, raw } => quest::TaskModel::Item {
            id,
            title,
            item,
            count: kept_count(raw, item, count, numbers),
            raw: read,
        },
        quest::TaskModel::Kill { id, title, entity, count, raw } => quest::TaskModel::Kill {
            id,
            title,
            entity,
            count,
            raw: read,
        },
        quest::TaskModel::Unsupported { kind, raw } => task,
    }
}

/// The same task, read from a value.
pub open spec fn task_read_from(task: quest::TaskModel, n: notation::Node) -> quest::TaskModel {
    match task {
        quest::TaskModel::Checkmark { id, title, raw } => quest::TaskModel::Checkmark {
            id,
            title,
            raw: Some(n),
        },
        quest::TaskModel::Item { id, title, item, count, raw } => quest::TaskModel::Item {
            id,
            title,
            item,
            count,
            raw: Some(n),
        },
        quest::TaskModel::Kill { id, title, entity, count, raw } => quest::TaskModel::Kill {
            id,
            title,
            entity,
            count,
            raw: Some(n),
        },
        quest::TaskModel::Unsupported { kind, raw } => task,
    }
}

/// The value that a task keeps is one of such a task.
pub open spec fn is_sound_task(task: quest::TaskModel) -> bool {
    match task {
        quest::TaskModel::Checkmark { id, title, raw } => is_entry_or_none(raw),
        quest::TaskModel::Item { id, title, item, count, raw } => is_entry_or_none(raw),
        quest::TaskModel::Kill { id, title, entity, count, raw } => is_entry_or_none(raw),
        quest::TaskModel::Unsupported { kind, raw } => {
            &&& is_entry(raw)
            &&& import::scalar_at(raw, "type"@) == Some(kind)
            &&& kind != "checkmark"@ && kind != "item"@ && kind != "kill"@
        },
    }
}

/// A task that nothing is lost of when it is written.
pub open spec fn is_lasting_task(
    task: quest::TaskModel,
    numbers: Seq<(Seq<char>, import::ReadingModel)>,
) -> bool {
    is_sound_task(task) && (task matches quest::TaskModel::Item { id, title, item, count, raw }
        ==> keeps_count(raw, item, count, numbers))
}

proof fn lemma_new_task_reads(task: quest::TaskModel)
    requires
        task !is Unsupported,
    ensures
        layout_laws::reads(
            layout::block(export::task_lines(task), 4),
            notation::Node::Compound(layout_laws::assembled(task_fields(task))),
        ),
{
    let lines = export::task_lines(task);
    let fields = task_fields(task);
    lemma_names();
    lemma_kinds_read();
    match task {
        quest::TaskModel::Checkmark { id, title, raw } => {
            layout_laws::lemma_in_quotes_reads(id);
            layout_laws::lemma_in_quotes_reads(title);
        },
        quest::TaskModel::Item { id, title, item, count, raw } => {
            layout_laws::lemma_in_quotes_reads(id);
            layout_laws::lemma_in_quotes_reads(title);
            layout_laws::lemma_in_quotes_reads(item);
            layout_laws::lemma_decimal_reads(count as nat);
        },
        quest::TaskModel::Kill { id, title, entity, count, raw } => {
            layout_laws::lemma_in_quotes_reads(id);
            layout_laws::lemma_in_quotes_reads(title);
            layout_laws::lemma_in_quotes_reads(entity);
            layout_laws::lemma_decimal_reads(count as nat);
        },
        quest::TaskModel::Unsupported { kind, raw } => {},
    }
    assert(layout_laws::lines_read(lines, fields));
    layout_laws::lemma_block_reads(lines, fields, 4);
}

/// The names of the fields of tasks and rewards are read as they stand.
proof fn lemma_names()
    ensures
        layout_laws::is_bare_key("id"@),
        layout_laws::is_bare_key("title"@),
        layout_laws::is_bare_key("type"@),
        layout_laws::is_bare_key("count"@),
        layout_laws::is_bare_key("item"@),
        layout_laws::is_bare_key("entity"@),
        layout_laws::is_bare_key("value"@),
        layout_laws::is_bare_key("xp"@),
{
    reveal_strlit("id");
    reveal_strlit("title");
    reveal_strlit("type");
    reveal_strlit("count");
    reveal_strlit("item");
    reveal_strlit("entity");
    reveal_strlit("value");
    reveal_strlit("xp");
    saved_fields::lemma_bare_key("id"@);
    saved_fields::lemma_bare_key("title"@);
    saved_fields::lemma_bare_key("type"@);
    saved_fields::lemma_bare_key("count"@);
    saved_fields::lemma_bare_key("item"@);
    saved_fields::lemma_bare_key("entity"@);
    saved_fields::lemma_bare_key("value"@);
    saved_fields::lemma_bare_key("xp"@);
}

/// The names of the fields of tasks and rewards differ.
proof fn lemma_names_differ()
    ensures
        "id"@ != "title"@,
        "id"@ != "type"@,
        "id"@ != "count"@,
        "id"@ != "item"@,
        "id"@ != "entity"@,
        "id"@ != "value"@,
        "id"@ != "xp"@,
        "title"@ != "type"@,
        "title"@ != "count"@,
        "title"@ != "item"@,
        "title"@ != "entity"@,
        "title"@ != "value"@,
        "type"@ != "count"@,
        "type"@ != "item"@,
        "type"@ != "entity"@,
        "type"@ != "value"@,
        "type"@ != "xp"@,
        "count"@ != "item"@,
        "entity"@ != "value"@,
        "checkmark"@ != "item"@,
        "checkmark"@ != "kill"@,
        "item"@ != "kill"@,
        "item"@ != "xp"@,
{
    reveal_strlit("id");
    reveal_strlit("title");
    reveal_strlit("type");
    reveal_strlit("count");
    reveal_strlit("item");
    reveal_strlit("entity");
    reveal_strlit("value");
    reveal_strlit("xp");
    reveal_strlit("checkmark");
    reveal_strlit("kill");
    assert("id"@.len() == 2 && "xp"@.len() == 2 && "type"@.len() == 4 && "item"@.len() == 4);
    assert("title"@.len() == 5 && "count"@.len() == 5 && "value"@.len() == 5);
    assert("entity"@.len() == 6 && "checkmark"@.len() == 9 && "kill"@.len() == 4);
    assert("title"@[0] == 't' && "count"@[0] == 'c' && "value"@[0] == 'v');
    assert("type"@[0] == 't' && "item"@[0] == 'i' && "kill"@[0] == 'k');
    assert("id"@[0] == 'i' && "xp"@[0] == 'x');
}

/// The types of tasks and rewards are read as they stand between quotes.
proof fn lemma_kinds_read()
    ensures
        layout_laws::reads("\"checkmark\""@, notation::Node::Scalar("checkmark"@)),
        layout_laws::reads("\"item\""@, notation::Node::Scalar("item"@)),
        layout_laws::reads("\"kill\""@, notation::Node::Scalar("kill"@)),
        layout_laws::reads("\"xp\""@, notation::Node::Scalar("xp"@)),
{
    reveal_strlit("checkmark");
    reveal_strlit("item");
    reveal_strlit("kill");
    reveal_strlit("xp");
    reveal_strlit("\"checkmark\"");
    reveal_strlit("\"item\"");
    reveal_strlit("\"kill\"");
    reveal_strlit("\"xp\"");
    lemma_plain_quotes("checkmark"@);
    lemma_plain_quotes("item"@);
    lemma_plain_quotes("kill"@);
    lemma_plain_quotes("xp"@);
    assert("\"checkmark\""@ =~= seq!['"'] + "checkmark"@ + seq!['"']);
    assert("\"item\""@ =~= seq!['"'] + "item"@ + seq!['"']);
    assert("\"kill\""@ =~= seq!['"'] + "kill"@ + seq!['"']);
    assert("\"xp\""@ =~= seq!['"'] + "xp"@ + seq!['"']);
}

/// A text of small letters stands between quotes as it is.
pub proof fn lemma_plain_quotes(t: Seq<char>)
    requires
        forall|i: int| 0 <= i < t.len() ==> 'a' <= #[trigger] t[i] <= 'z',
    ensures
        export::in_quotes(t) == seq!['"'] + t + seq!['"'],
        layout_laws::reads(seq!['"'] + t + seq!['"'], notation::Node::Scalar(t)),
{
    lemma_plain_escapes(t);
    layout_laws::lemma_in_quotes_reads(t);
}

proof fn lemma_plain_escapes(t: Seq<char>)
    requires
        forall|i: int| 0 <= i < t.len() ==> 'a' <= #[trigger] t[i] <= 'z',
    ensures
        export::all_escaped(t) == t,
    decreases t.len(),
{
    if t.len() > 0 {
        assert forall|i: int| 0 <= i < t.drop_last().len() implies 'a' <= #[trigger] t.drop_last()[i]
            <= 'z' by {
            assert(t.drop_last()[i] == t[i]);
        }
        lemma_plain_escapes(t.drop_last());
        assert('a' <= t[t.len() - 1] <= 'z');
        assert(export::escaped(t.last()) == seq![t.last()]);
        assert(t =~= t.drop_last() + seq![t.last()]);
    }
}

/// The fields of a new task, found by their names.
proof fn lemma_new_task_fields(task: quest::TaskModel)
    requires
        task !is Unsupported,
    ensures
        ({
            let n = notation::Node::Compound(layout_laws::assembled(task_fields(task)));
            match task {
                quest::TaskModel::Checkmark { id, title, raw } => {
                    &&& snbt::field(n, "id"@) == Some(notation::Node::Scalar(id))
                    &&& snbt::field(n, "title"@) == Some(notation::Node::Scalar(title))
                    &&& snbt::field(n, "type"@) == Some(notation::Node::Scalar("checkmark"@))
                },
                quest::TaskModel::Item { id, title, item, count, raw } => {
                    &&& snbt::field(n, "id"@) == Some(notation::Node::Scalar(id))
                    &&& snbt::field(n, "title"@) == Some(notation::Node::Scalar(title))
                    &&& snbt::field(n, "type"@) == Some(notation::Node::Scalar("item"@))
                    &&& snbt::field(n, "item"@) == Some(notation::Node::Scalar(item))
                    &&& snbt::field(n, "count"@) == Some(saved_fields::long_count_node(count))
                },
                quest::TaskModel::Kill { id, title, entity, count, raw } => {
                    &&& snbt::field(n, "id"@) == Some(notation::Node::Scalar(id))
                    &&& snbt::field(n, "title"@) == Some(notation::Node::Scalar(title))
                    &&& snbt::field(n, "type"@) == Some(notation::Node::Scalar("kill"@))
                    &&& snbt::field(n, "entity"@) == Some(notation::Node::Scalar(entity))
                    &&& snbt::field(n, "value"@) == Some(saved_fields::long_count_node(count))
                },
                quest::TaskModel::Unsupported { .. } => true,
            }
        }),
{
    let fields = task_fields(task);
    lemma_names_differ();
    saved_fields::lemma_assembled(fields);
    lemma_last_of_five(fields);
}

/// Among at most five fields the last value of a name is the first one found from the end.
proof fn lemma_last_of_five(f: Seq<(Seq<char>, notation::Node)>)
    ensures
        forall|k: Seq<char>|
            3 <= f.len() <= 5 ==> #[trigger] saved_fields::last_value(f, k) == (if f[f.len() - 1].0
                == k {
                Some(f[f.len() - 1].1)
            } else if f[f.len() - 2].0 == k {
                Some(f[f.len() - 2].1)
            } else if f[f.len() - 3].0 == k {
                Some(f[f.len() - 3].1)
            } else if f.len() > 3 && f[f.len() - 4].0 == k {
                Some(f[f.len() - 4].1)
            } else if f.len() > 4 && f[f.len() - 5].0 == k {
                Some(f[f.len() - 5].1)
            } else {
                None
            }),
{
    reveal_with_fuel(saved_fields::last_value, 6);
}

/// What is read of a written task is the task as it has settled.
pub proof fn lemma_task(task: quest::TaskModel, numbers: Seq<(Seq<char>, import::ReadingModel)>)
    requires
        is_sound_task(task),
    ensures
        layout_laws::reads(export::task_text(task, numbers), task_node(task, numbers)),
        import::task_of(task_node(task, numbers), numbers) == Some(settled_task(task, numbers)),
{
    lemma_names_differ();
    let n = task_node(task, numbers);
    match export::merged_task(task, numbers) {
        Some(merged) => {
            match task {
                quest::TaskModel::Checkmark { id, title, raw } => {
                    let a = export::with_scalar(raw->Some_0, "id"@, id);
                    let b = export::with_scalar(a, "title"@, title);
                    lemma_with_scalar(raw->Some_0, "id"@, id);
                    lemma_with_scalar(a, "title"@, title);
                    lemma_with_scalar(b, "type"@, "checkmark"@);
                },
                quest::TaskModel::Item { id, title, item, count, raw } => {
                    let a = export::with_scalar(raw->Some_0, "id"@, id);
                    let b = export::with_scalar(a, "title"@, title);
                    let c = export::with_scalar(b, "type"@, "item"@);
                    lemma_with_scalar(raw->Some_0, "id"@, id);
                    lemma_with_scalar(a, "title"@, title);
                    lemma_with_scalar(b, "type"@, "item"@);
                    lemma_with_item(c, raw->Some_0, item, count, numbers);
                },
                quest::TaskModel::Kill { id, title, entity, count, raw } => {
                    let a = export::with_scalar(raw->Some_0, "id"@, id);
                    let b = export::with_scalar(a, "title"@, title);
                    let c = export::with_scalar(b, "entity"@, entity);
                    let d = export::with_scalar(c, "type"@, "kill"@);
                    lemma_with_scalar(raw->Some_0, "id"@, id);
                    lemma_with_scalar(a, "title"@, title);
                    lemma_with_scalar(b, "entity"@, entity);
                    lemma_with_scalar(c, "type"@, "kill"@);
                    lemma_with_scalar(d, "value"@, compose::decimal(count as nat) + "L"@);
                    digits::lemma_whole_decimal(count as nat);
                },
                quest::TaskModel::Unsupported { kind, raw } => {},
            }
            layout_laws::lemma_written_reads(merged);
        },
        None => {
            lemma_new_task_reads(task);
            lemma_new_task_fields(task);
            match task {
                quest::TaskModel::Item { id, title, item, count, raw } => {
                    digits::lemma_whole_decimal(count as nat);
                },
                quest::TaskModel::Kill { id, title, entity, count, raw } => {
                    digits::lemma_whole_decimal(count as nat);
                },
                _ => {},
            }
        },
    }
}

/// A changed item and a changed count are found, and what has not changed is found as it was.
proof fn lemma_with_item(
    n: notation::Node,
    raw: notation::Node,
    item: Seq<char>,
    count: u32,
    numbers: Seq<(Seq<char>, import::ReadingModel)>,
)
    requires
        is_entry(n),
        is_entry(raw),
        snbt::field(n, "item"@) == snbt::field(raw, "item"@),
        snbt::field(n, "count"@) == snbt::field(raw, "count"@),
    ensures
        ({
            let after = export::with_item(n, raw, item, count, numbers);
            &&& is_entry(after)
            &&& import::item_or_empty(snbt::field(after, "item"@)) == item
            &&& import::item_count_of(after, numbers) == kept_count(
                Some(raw),
                item,
                count,
                numbers,
            )
            &&& forall|k: Seq<char>|
                k != "item"@ && k != "count"@ ==> #[trigger] snbt::field(after, k) == snbt::field(
                    n,
                    k,
                )
        }),
{
    lemma_names_differ();
    let named = if item != import::item_or_empty(snbt::field(raw, "item"@)) {
        export::with_scalar(n, "item"@, item)
    } else {
        n
    };
    lemma_with_scalar(n, "item"@, item);
    lemma_with_scalar(named, "count"@, compose::decimal(count as nat) + "L"@);
    digits::lemma_whole_decimal(count as nat);
}

// ---------------------------------------------------------------------------
// Rewards
// ---------------------------------------------------------------------------

/// The fields of a reward that was not read.
pub open spec fn reward_fields(reward: quest::RewardModel) -> Seq<(Seq<char>, notation::Node)> {
    match reward {
        quest::RewardModel::Xp { id, amount, raw } => seq![
            ("id"@, notation::Node::Scalar(id)),
            ("type"@, notation::Node::Scalar("xp"@)),
            ("xp"@, saved_fields::count_node(amount)),
        ],
        quest::RewardModel::Item { id, item, count, raw } => seq![
            ("count"@, saved_fields::count_node(count)),
            ("id"@, notation::Node::Scalar(id)),
            ("item"@, notation::Node::Scalar(item)),
            ("type"@, notation::Node::Scalar("item"@)),
        ],
        quest::RewardModel::Unsupported { kind, raw } => Seq::empty(),
    }
}

/// The value that a written reward is read as.
pub open spec fn reward_node(
    reward: quest::RewardModel,
    numbers: Seq<(Seq<char>, import::ReadingModel)>,
) -> notation::Node {
    match export::merged_reward(reward, numbers) {
        Some(n) => n,
        None => notation::Node::Compound(layout_laws::assembled(reward_fields(reward))),
    }
}

/// The reward as it is after it was written and read: it keeps the value it is read from, and the
/// count that is not taken away with an old item.
pub open spec fn settled_reward(
    reward: quest::RewardModel,
    numbers: Seq<(Seq<char>, import::ReadingModel)>,
) -> quest::RewardModel {
    let read = Some(reward_node(reward, numbers));
    match reward {
        quest::RewardModel::Xp { id, amount, raw } => quest::RewardModel::Xp {
            id,
            amount,
            raw: read,
        },
        quest::RewardModel::Item { id, item, count, raw } => quest::RewardModel::Item {
            id,
            item,
            count: kept_count(raw, item, count, numbers),
            raw: read,
        },
        quest::RewardModel::Unsupported { kind, raw } => reward,
    }
}

/// The same reward, read from a value.
pub open spec fn reward_read_from(
    reward: quest::RewardModel,
    n: notation::Node,
) -> quest::RewardModel {
    match reward {
        quest::RewardModel::Xp { id, amount, raw } => quest::RewardModel::Xp {
            id,
            amount,
            raw: Some(n),
        },
        quest::RewardModel::Item { id, item, count, raw } => quest::RewardModel::Item {
            id,
            item,
            count,
            raw: Some(n),
        },
        quest::RewardModel::Unsupported { kind, raw } => reward,
    }
}

/// The value that a reward keeps is one of such a reward.
pub open spec fn is_sound_reward(reward: quest::RewardModel) -> bool {
    match reward {
        quest::RewardModel::Xp { id, amount, raw } => is_entry_or_none(raw),
        quest::RewardModel::Item { id, item, count, raw } => is_entry_or_none(raw),
        quest::RewardModel::Unsupported { kind, raw } => {
            &&& is_entry(raw)
            &&& import::scalar_at(raw, "type"@) == Some(kind)
            &&& kind != "xp"@ && kind != "item"@
        },
    }
}

/// A reward that nothing is lost of when it is written.
pub open spec fn is_lasting_reward(
    reward: quest::RewardModel,
    numbers: Seq<(Seq<char>, import::ReadingModel)>,
) -> bool {
    is_sound_reward(reward) && (reward matches quest::RewardModel::Item { id, item, count, raw }
        ==> keeps_count(raw, item, count, numbers))
}

proof fn lemma_new_reward(reward: quest::RewardModel)
    requires
        reward !is Unsupported,
    ensures
        layout_laws::reads(
            layout::block(export::reward_lines(reward), 4),
            notation::Node::Compound(layout_laws::assembled(reward_fields(reward))),
        ),
        ({
            let n = notation::Node::Compound(layout_laws::assembled(reward_fields(reward)));
            match reward {
                quest::RewardModel::Xp { id, amount, raw } => {
                    &&& snbt::field(n, "id"@) == Some(notation::Node::Scalar(id))
                    &&& snbt::field(n, "type"@) == Some(notation::Node::Scalar("xp"@))
                    &&& snbt::field(n, "xp"@) == Some(saved_fields::count_node(amount))
                },
                quest::RewardModel::Item { id, item, count, raw } => {
                    &&& snbt::field(n, "id"@) == Some(notation::Node::Scalar(id))
                    &&& snbt::field(n, "type"@) == Some(notation::Node::Scalar("item"@))
                    &&& snbt::field(n, "item"@) == Some(notation::Node::Scalar(item))
                    &&& snbt::field(n, "count"@) == Some(saved_fields::count_node(count))
                },
                quest::RewardModel::Unsupported { .. } => true,
            }
        }),
{
    let lines = export::reward_lines(reward);
    let fields = reward_fields(reward);
    lemma_names();
    lemma_kinds_read();
    match reward {
        quest::RewardModel::Xp { id, amount, raw } => {
            layout_laws::lemma_in_quotes_reads(id);
            layout_laws::lemma_decimal_reads(amount as nat);
        },
        quest::RewardModel::Item { id, item, count, raw } => {
            layout_laws::lemma_in_quotes_reads(id);
            layout_laws::lemma_in_quotes_reads(item);
            layout_laws::lemma_decimal_reads(count as nat);
        },
        quest::RewardModel::Unsupported { kind, raw } => {},
    }
    assert(layout_laws::lines_read(lines, fields));
    layout_laws::lemma_block_reads(lines, fields, 4);
    lemma_names_differ();
    saved_fields::lemma_assembled(fields);
    lemma_last_of_five(fields);
}

/// What is read of a written reward is the reward as it has settled.
pub proof fn lemma_reward(
    reward: quest::RewardModel,
    numbers: Seq<(Seq<char>, import::ReadingModel)>,
)
    requires
        is_sound_reward(reward),
    ensures
        layout_laws::reads(export::reward_text(reward, numbers), reward_node(reward, numbers)),
        import::reward_of(reward_node(reward, numbers), numbers) == Some(
            settled_reward(reward, numbers),
        ),
{
    lemma_names_differ();
    match export::merged_reward(reward, numbers) {
        Some(merged) => {
            match reward {
                quest::RewardModel::Xp { id, amount, raw } => {
                    let a = export::with_scalar(raw->Some_0, "id"@, id);
                    let b = export::with_scalar(a, "type"@, "xp"@);
                    lemma_with_scalar(raw->Some_0, "id"@, id);
                    lemma_with_scalar(a, "type"@, "xp"@);
                    lemma_with_scalar(b, "xp"@, compose::decimal(amount as nat));
                    digits::lemma_whole_decimal(amount as nat);
                },
                quest::RewardModel::Item { id, item, count, raw } => {
                    let a = export::with_scalar(raw->Some_0, "id"@, id);
                    let b = export::with_scalar(a, "type"@, "item"@);
                    lemma_with_scalar(raw->Some_0, "id"@, id);
                    lemma_with_scalar(a, "type"@, "item"@);
                    lemma_with_item(b, raw->Some_0, item, count, numbers);
                },
                quest::RewardModel::Unsupported { kind, raw } => {},
            }
            layout_laws::lemma_written_reads(merged);
        },
        None => {
            lemma_new_reward(reward);
            match reward {
                quest::RewardModel::Xp { id, amount, raw } => {
                    digits::lemma_whole_decimal(amount as nat);
                },
                quest::RewardModel::Item { id, item, count, raw } => {
                    digits::lemma_whole_decimal(count as nat);
                },
                quest::RewardModel::Unsupported { kind, raw } => {},
            }
        },
    }
}

} // verus!
