//! What the files of a saved book say, line by line.

use crate::compose;
use crate::export;
use crate::import;
use crate::import_laws;
use crate::layout;
use crate::notation;
use crate::quest;
use crate::quest::Tristate;
use crate::snbt;
use crate::table;
use crate::text;
use vstd::prelude::*;

verus! {

// ---------------------------------------------------------------------------
// Entries that were read
// ---------------------------------------------------------------------------

proof fn lemma_with_scalar(n: notation::Node, key: Seq<char>, s: Seq<char>)
    requires
        n matches notation::Node::Compound(entries) && table::ordered(entries),
    ensures
        export::with_scalar(n, key, s) matches notation::Node::Compound(entries) && table::ordered(
            entries,
        ),
        forall|k: Seq<char>| #[trigger]
            snbt::field(export::with_scalar(n, key, s), k) == (if k == key {
                Some(notation::Node::Scalar(s))
            } else {
                snbt::field(n, k)
            }),
{
    let entries = n->Compound_0;
    table::lemma_upsert(entries, key, notation::Node::Scalar(s));
    assert forall|k: Seq<char>| #[trigger]
        snbt::field(export::with_scalar(n, key, s), k) == (if k == key {
            Some(notation::Node::Scalar(s))
        } else {
            snbt::field(n, k)
        }) by {
        assert(k != key ==> table::lookup(
            table::upsert(entries, key, notation::Node::Scalar(s)),
            k,
        ) == table::lookup(entries, k));
    }
}

pub open spec fn says(n: notation::Node, key: Seq<char>, s: Seq<char>) -> bool {
    snbt::field(n, key) == Some(notation::Node::Scalar(s))
}

/// Of the item of an entry as much is written as has changed: the item stays as it was read where
/// it still has that name, and the count where it is still that one.
pub open spec fn item_is_merged(
    n: notation::Node,
    raw: notation::Node,
    item: Seq<char>,
    count: u32,
    numbers: Seq<(Seq<char>, import::ReadingModel)>,
) -> bool {
    &&& import_laws::is_item(raw, "item"@, item) ==> snbt::field(n, "item"@) == snbt::field(
        raw,
        "item"@,
    )
    &&& !import_laws::is_item(raw, "item"@, item) ==> says(n, "item"@, item)
    &&& count == import::item_count_of(raw, numbers) ==> snbt::field(n, "count"@) == snbt::field(
        raw,
        "count"@,
    )
    &&& count != import::item_count_of(raw, numbers) ==> says(
        n,
        "count"@,
        compose::decimal(count as nat) + "L"@,
    )
}

proof fn lemma_keys_differ()
    ensures
        "id"@ != "title"@,
        "id"@ != "type"@,
        "id"@ != "item"@,
        "id"@ != "count"@,
        "id"@ != "entity"@,
        "id"@ != "value"@,
        "id"@ != "xp"@,
        "title"@ != "type"@,
        "title"@ != "item"@,
        "title"@ != "count"@,
        "title"@ != "entity"@,
        "title"@ != "value"@,
        "type"@ != "item"@,
        "type"@ != "count"@,
        "type"@ != "entity"@,
        "type"@ != "value"@,
        "type"@ != "xp"@,
        "item"@ != "count"@,
        "entity"@ != "value"@,
{
    reveal_strlit("id");
    reveal_strlit("title");
    reveal_strlit("type");
    reveal_strlit("item");
    reveal_strlit("count");
    reveal_strlit("entity");
    reveal_strlit("value");
    reveal_strlit("xp");
    assert("id"@[0] == 'i' && "xp"@[0] == 'x');
    assert("id"@.len() == 2 && "title"@.len() == 5 && "type"@.len() == 4 && "item"@.len() == 4
        && "count"@.len() == 5 && "entity"@.len() == 6 && "value"@.len() == 5 && "xp"@.len() == 2);
    assert("title"@[0] == 't' && "count"@[0] == 'c' && "value"@[0] == 'v');
    assert("type"@[0] == 't' && "item"@[0] == 'i');
}

/// A task that was read is written with all that was read, and with what the task says now: other
/// fields stay, and a task of another type is written as it was read.
pub proof fn law_read_task_keeps_its_fields(
    task: quest::TaskModel,
    raw: notation::Node,
    numbers: Seq<(Seq<char>, import::ReadingModel)>,
)
    requires
        raw matches notation::Node::Compound(entries) && table::ordered(entries),
        match task {
            quest::TaskModel::Checkmark { raw: r, .. } => r == Some(raw),
            quest::TaskModel::Item { raw: r, .. } => r == Some(raw),
            quest::TaskModel::Kill { raw: r, .. } => r == Some(raw),
            quest::TaskModel::Unsupported { raw: r, .. } => r == raw,
        },
    ensures
        export::merged_task(task, numbers) matches Some(n) && match task {
            quest::TaskModel::Checkmark { id, title, .. } => {
                &&& says(n, "id"@, id)
                &&& says(n, "title"@, title)
                &&& says(n, "type"@, "checkmark"@)
                &&& forall|k: Seq<char>|
                    k != "id"@ && k != "title"@ && k != "type"@ ==> #[trigger] snbt::field(n, k)
                        == snbt::field(raw, k)
            },
            quest::TaskModel::Item { id, title, item, count, .. } => {
                &&& says(n, "id"@, id)
                &&& says(n, "title"@, title)
                &&& says(n, "type"@, "item"@)
                &&& item_is_merged(n, raw, item, count, numbers)
                &&& forall|k: Seq<char>|
                    k != "id"@ && k != "title"@ && k != "type"@ && k != "item"@ && k != "count"@
                        ==> #[trigger] snbt::field(n, k) == snbt::field(raw, k)
            },
            quest::TaskModel::Kill { id, title, entity, count, .. } => {
                &&& says(n, "id"@, id)
                &&& says(n, "title"@, title)
                &&& says(n, "type"@, "kill"@)
                &&& says(n, "entity"@, entity)
                &&& says(n, "value"@, compose::decimal(count as nat) + "L"@)
                &&& forall|k: Seq<char>|
                    k != "id"@ && k != "title"@ && k != "type"@ && k != "entity"@ && k != "value"@
                        ==> #[trigger] snbt::field(n, k) == snbt::field(raw, k)
            },
            quest::TaskModel::Unsupported { .. } => n == raw,
        },
{
    lemma_keys_differ();
    match task {
        quest::TaskModel::Checkmark { id, title, .. } => {
            let a = export::with_scalar(raw, "id"@, id);
            let b = export::with_scalar(a, "title"@, title);
            lemma_with_scalar(raw, "id"@, id);
            lemma_with_scalar(a, "title"@, title);
            lemma_with_scalar(b, "type"@, "checkmark"@);
        },
        quest::TaskModel::Item { id, title, item, count, .. } => {
            let a = export::with_scalar(raw, "id"@, id);
            let b = export::with_scalar(a, "title"@, title);
            let c = export::with_scalar(b, "type"@, "item"@);
            lemma_with_scalar(raw, "id"@, id);
            lemma_with_scalar(a, "title"@, title);
            lemma_with_scalar(b, "type"@, "item"@);
            lemma_with_item(c, raw, item, count, numbers);
        },
        quest::TaskModel::Kill { id, title, entity, count, .. } => {
            let a = export::with_scalar(raw, "id"@, id);
            let b = export::with_scalar(a, "title"@, title);
            let c = export::with_scalar(b, "entity"@, entity);
            let d = export::with_scalar(c, "type"@, "kill"@);
            lemma_with_scalar(raw, "id"@, id);
            lemma_with_scalar(a, "title"@, title);
            lemma_with_scalar(b, "entity"@, entity);
            lemma_with_scalar(c, "type"@, "kill"@);
            lemma_with_scalar(d, "value"@, compose::decimal(count as nat) + "L"@);
        },
        quest::TaskModel::Unsupported { .. } => {},
    }
}

proof fn lemma_with_item(
    n: notation::Node,
    raw: notation::Node,
    item: Seq<char>,
    count: u32,
    numbers: Seq<(Seq<char>, import::ReadingModel)>,
)
    requires
        n matches notation::Node::Compound(entries) && table::ordered(entries),
        snbt::field(n, "item"@) == snbt::field(raw, "item"@),
        snbt::field(n, "count"@) == snbt::field(raw, "count"@),
    ensures
        item_is_merged(export::with_item(n, raw, item, count, numbers), raw, item, count, numbers),
        forall|k: Seq<char>|
            k != "item"@ && k != "count"@ ==> #[trigger] snbt::field(
                export::with_item(n, raw, item, count, numbers),
                k,
            ) == snbt::field(n, k),
{
    lemma_keys_differ();
    let same = item == import::item_or_empty(snbt::field(raw, "item"@));
    assert(same <==> import_laws::is_item(raw, "item"@, item)) by {
        if import_laws::is_item(raw, "item"@, item) {
            match snbt::field(raw, "item"@) {
                Some(notation::Node::Scalar(s)) => {},
                Some(other) => {},
                None => {
                    assert(item =~= Seq::<char>::empty());
                },
            }
        }
    }
    lemma_with_scalar(n, "item"@, item);
    let named = if same {
        n
    } else {
        export::with_scalar(n, "item"@, item)
    };
    lemma_with_scalar(named, "count"@, compose::decimal(count as nat) + "L"@);
}

/// A reward that was read is written with all that was read, and with what the reward says now:
/// other fields stay, and a reward of another type is written as it was read.
pub proof fn law_read_reward_keeps_its_fields(
    reward: quest::RewardModel,
    raw: notation::Node,
    numbers: Seq<(Seq<char>, import::ReadingModel)>,
)
    requires
        raw matches notation::Node::Compound(entries) && table::ordered(entries),
        match reward {
            quest::RewardModel::Xp { raw: r, .. } => r == Some(raw),
            quest::RewardModel::Item { raw: r, .. } => r == Some(raw),
            quest::RewardModel::Unsupported { raw: r, .. } => r == raw,
        },
    ensures
        export::merged_reward(reward, numbers) matches Some(n) && match reward {
            quest::RewardModel::Xp { id, amount, .. } => {
                &&& says(n, "id"@, id)
                &&& says(n, "type"@, "xp"@)
                &&& says(n, "xp"@, compose::decimal(amount as nat))
                &&& forall|k: Seq<char>|
                    k != "id"@ && k != "type"@ && k != "xp"@ ==> #[trigger] snbt::field(n, k)
                        == snbt::field(raw, k)
            },
            quest::RewardModel::Item { id, item, count, .. } => {
                &&& says(n, "id"@, id)
                &&& says(n, "type"@, "item"@)
                &&& item_is_merged(n, raw, item, count, numbers)
                &&& forall|k: Seq<char>|
                    k != "id"@ && k != "type"@ && k != "item"@ && k != "count"@
                        ==> #[trigger] snbt::field(n, k) == snbt::field(raw, k)
            },
            quest::RewardModel::Unsupported { .. } => n == raw,
        },
{
    lemma_keys_differ();
    match reward {
        quest::RewardModel::Xp { id, amount, .. } => {
            let a = export::with_scalar(raw, "id"@, id);
            let b = export::with_scalar(a, "type"@, "xp"@);
            lemma_with_scalar(raw, "id"@, id);
            lemma_with_scalar(a, "type"@, "xp"@);
            lemma_with_scalar(b, "xp"@, compose::decimal(amount as nat));
        },
        quest::RewardModel::Item { id, item, count, .. } => {
            let a = export::with_scalar(raw, "id"@, id);
            let b = export::with_scalar(a, "type"@, "item"@);
            lemma_with_scalar(raw, "id"@, id);
            lemma_with_scalar(a, "type"@, "item"@);
            lemma_with_item(b, raw, item, count, numbers);
        },
        quest::RewardModel::Unsupported { .. } => {},
    }
}

/// An entry that was made here is written field by field.
pub proof fn law_new_entries_are_written(
    task: quest::TaskModel,
    reward: quest::RewardModel,
    numbers: Seq<(Seq<char>, import::ReadingModel)>,
)
    ensures
        match task {
            quest::TaskModel::Checkmark { id, title, raw: None } => {
                let w = export::task_text(task, numbers);
                &&& holds_line(w, "id"@, export::in_quotes(id))
                &&& holds_line(w, "title"@, export::in_quotes(title))
                &&& holds_line(w, "type"@, "\"checkmark\""@)
            },
            quest::TaskModel::Item { id, title, item, count, raw: None } => {
                let w = export::task_text(task, numbers);
                &&& holds_line(w, "id"@, export::in_quotes(id))
                &&& holds_line(w, "title"@, export::in_quotes(title))
                &&& holds_line(w, "item"@, export::in_quotes(item))
                &&& holds_line(w, "count"@, compose::decimal(count as nat) + "L"@)
                &&& holds_line(w, "type"@, "\"item\""@)
            },
            quest::TaskModel::Kill { id, title, entity, count, raw: None } => {
                let w = export::task_text(task, numbers);
                &&& holds_line(w, "id"@, export::in_quotes(id))
                &&& holds_line(w, "title"@, export::in_quotes(title))
                &&& holds_line(w, "entity"@, export::in_quotes(entity))
                &&& holds_line(w, "value"@, compose::decimal(count as nat) + "L"@)
                &&& holds_line(w, "type"@, "\"kill\""@)
            },
            _ => true,
        },
        match reward {
            quest::RewardModel::Xp { id, amount, raw: None } => {
                let w = export::reward_text(reward, numbers);
                &&& holds_line(w, "id"@, export::in_quotes(id))
                &&& holds_line(w, "xp"@, compose::decimal(amount as nat))
                &&& holds_line(w, "type"@, "\"xp\""@)
            },
            quest::RewardModel::Item { id, item, count, raw: None } => {
                let w = export::reward_text(reward, numbers);
                &&& holds_line(w, "id"@, export::in_quotes(id))
                &&& holds_line(w, "item"@, export::in_quotes(item))
                &&& holds_line(w, "count"@, compose::decimal(count as nat))
                &&& holds_line(w, "type"@, "\"item\""@)
            },
            _ => true,
        },
{
    let lines = export::task_lines(task);
    assert forall|i: int| 0 <= i < lines.len() implies holds_line(
        layout::block(lines, 4),
        (#[trigger] lines[i]).0,
        lines[i].1,
    ) by {
        lemma_line_stands(lines, 4, i);
    }
    let more = export::reward_lines(reward);
    assert forall|i: int| 0 <= i < more.len() implies holds_line(
        layout::block(more, 4),
        (#[trigger] more[i]).0,
        more[i].1,
    ) by {
        lemma_line_stands(more, 4, i);
    }
    match task {
        quest::TaskModel::Checkmark { raw: None, .. } => {
            assert(holds_line(layout::block(lines, 4), lines[0].0, lines[0].1));
            assert(holds_line(layout::block(lines, 4), lines[1].0, lines[1].1));
            assert(holds_line(layout::block(lines, 4), lines[2].0, lines[2].1));
        },
        quest::TaskModel::Unsupported { .. } => {},
        _ => {
            if export::merged_task(task, numbers) is None {
                assert(holds_line(layout::block(lines, 4), lines[0].0, lines[0].1));
                assert(holds_line(layout::block(lines, 4), lines[1].0, lines[1].1));
                assert(holds_line(layout::block(lines, 4), lines[2].0, lines[2].1));
                assert(holds_line(layout::block(lines, 4), lines[3].0, lines[3].1));
                assert(holds_line(layout::block(lines, 4), lines[4].0, lines[4].1));
            }
        },
    }
    match reward {
        quest::RewardModel::Xp { raw: None, .. } => {
            assert(holds_line(layout::block(more, 4), more[0].0, more[0].1));
            assert(holds_line(layout::block(more, 4), more[1].0, more[1].1));
            assert(holds_line(layout::block(more, 4), more[2].0, more[2].1));
        },
        quest::RewardModel::Item { raw: None, .. } => {
            assert(holds_line(layout::block(more, 4), more[0].0, more[0].1));
            assert(holds_line(layout::block(more, 4), more[1].0, more[1].1));
            assert(holds_line(layout::block(more, 4), more[2].0, more[2].1));
            assert(holds_line(layout::block(more, 4), more[3].0, more[3].1));
        },
        _ => {},
    }
}

// ---------------------------------------------------------------------------
// Descriptions and icons
// ---------------------------------------------------------------------------

/// A description or an icon that was read and not changed since is written as it was read, and
/// one that was changed as its own text.
pub proof fn law_unchanged_texts_are_written_as_read(
    description: Seq<char>,
    lines: Seq<Seq<char>>,
    raw: notation::Node,
    icon: Seq<char>,
)
    requires
        raw is List,
        import_laws::is_list_of_texts(
            notation::Node::Compound(seq![("description"@, raw)]),
            "description"@,
            lines,
        ),
    ensures
        compose::joined(lines, "\n"@) == description ==> export::description_text(
            description,
            Some(raw),
        ) == notation::written(raw),
        compose::joined(lines, "\n"@) != description ==> export::description_text(
            description,
            Some(raw),
        ) == "["@ + export::in_quotes(description) + "]"@,
        export::description_text(description, None) == "["@ + export::in_quotes(description)
            + "]"@,
        export::icon_text(icon, None) == export::in_quotes(icon),
        forall|node: notation::Node|
            #![trigger export::icon_text(icon, Some(node))]
            (node == notation::Node::Scalar(icon) || node is Compound && says(node, "id"@, icon))
                ==> export::icon_text(icon, Some(node)) == notation::written(node),
        forall|node: notation::Node|
            #![trigger export::icon_text(icon, Some(node))]
            node != notation::Node::Scalar(icon) && !says(node, "id"@, icon)
                ==> export::icon_text(icon, Some(node)) == export::in_quotes(icon),
{
    let n = notation::Node::Compound(seq![("description"@, raw)]);
    let entries = seq![("description"@, raw)];
    assert(entries[0].0 == "description"@);
    assert(table::lookup(entries, "description"@) == Some(raw));
    let found = import::scalars_in(raw->List_0);
    import_laws::lemma_texts_once(n, "description"@, lines);
    assert(import::scalars_at(n, "description"@) == found);
}

// ---------------------------------------------------------------------------
// Lines
// ---------------------------------------------------------------------------

/// A line with a name and a value stands in a text.
pub open spec fn holds_line(w: Seq<char>, key: Seq<char>, value: Seq<char>) -> bool {
    text::has_text(w, seq!['\t'] + key + ": "@ + value + "\n"@)
}

proof fn lemma_inside(a: Seq<char>, x: Seq<char>, b: Seq<char>, q: Seq<char>)
    requires
        text::has_text(x, q),
    ensures
        text::has_text(a + x + b, q),
{
    let w = a + x + b;
    let i = choose|i: int| text::stands_at(x, q, i);
    let at = a.len() + i;
    assert(w.subrange(at, at + q.len()) =~= x.subrange(i, i + q.len()));
    assert(text::stands_at(w, q, at));
}

proof fn lemma_lines_stand(lines: Seq<(Seq<char>, Seq<char>)>, depth: nat, i: int)
    requires
        0 <= i < lines.len(),
        depth > 0,
    ensures
        holds_line(layout::lines_text(lines, depth), lines[i].0, lines[i].1),
    decreases lines.len(),
{
    let front = lines.drop_last();
    let all = layout::lines_text(lines, depth);
    if i < front.len() {
        lemma_lines_stand(front, depth, i);
        assert(front[i] == lines[i]);
        let b = layout::line_text(lines.last(), depth);
        let q = seq!['\t'] + lines[i].0 + ": "@ + lines[i].1 + "\n"@;
        lemma_inside(Seq::empty(), layout::lines_text(front, depth), b, q);
        assert(all =~= Seq::<char>::empty() + layout::lines_text(front, depth) + b);
    } else {
        let line = lines[i];
        let q = seq!['\t'] + line.0 + ": "@ + line.1 + "\n"@;
        let w = layout::line_text(line, depth);
        let a = layout::lines_text(front, depth) + compose::repeated('\t', (depth - 1) as nat);
        assert(all =~= a + q + Seq::<char>::empty());
        assert(q.subrange(0, q.len() as int) =~= q);
        assert(text::stands_at(q, q, 0));
        lemma_inside(a, q, Seq::empty(), q);
    }
}

proof fn lemma_line_stands(lines: Seq<(Seq<char>, Seq<char>)>, depth: nat, i: int)
    requires
        0 <= i < lines.len(),
    ensures
        holds_line(layout::block(lines, depth), lines[i].0, lines[i].1),
{
    lemma_lines_stand(lines, depth + 1, i);
    let q = seq!['\t'] + lines[i].0 + ": "@ + lines[i].1 + "\n"@;
    let b = layout::tabs(depth) + "}"@;
    lemma_inside("{\n"@, layout::lines_text(lines, depth + 1), b, q);
    assert(layout::block(lines, depth) =~= "{\n"@ + layout::lines_text(lines, depth + 1) + b);
}

/// Of lines in brackets each one stands on a line of its own, set in by one more tab than the
/// brackets.
pub proof fn law_lines_are_laid_out(
    lines: Seq<(Seq<char>, Seq<char>)>,
    key: Seq<char>,
    value: Seq<char>,
    depth: nat,
)
    ensures
        layout::block(Seq::empty(), depth) == "{\n"@ + compose::repeated('\t', depth) + "}"@,
        layout::block(lines.push((key, value)), depth) == layout::block(lines, depth).take(
            layout::block(lines, depth).len() - depth - 1,
        ) + compose::repeated('\t', depth + 1) + key + ": "@ + value + "\n"@ + compose::repeated(
            '\t',
            depth,
        ) + "}"@,
{
    reveal_strlit("}");
    reveal_strlit("{\n");
    let none = Seq::<(Seq<char>, Seq<char>)>::empty();
    assert(layout::lines_text(none, depth + 1) =~= Seq::empty());
    assert(layout::block(none, depth) =~= "{\n"@ + compose::repeated('\t', depth) + "}"@);
    let all = lines.push((key, value));
    assert(all.drop_last() =~= lines);
    let w = layout::block(lines, depth);
    assert(w.take(w.len() - depth - 1) =~= "{\n"@ + layout::lines_text(lines, depth + 1));
    assert(layout::block(all, depth) =~= w.take(w.len() - depth - 1) + compose::repeated(
        '\t',
        depth + 1,
    ) + key + ": "@ + value + "\n"@ + compose::repeated('\t', depth) + "}"@);
}

proof fn lemma_of_both()
    ensures
        forall|
            a: Seq<(Seq<char>, Seq<char>)>,
            b: Seq<(Seq<char>, Seq<char>)>,
            x: (Seq<char>, Seq<char>),
        | #[trigger] (a + b).contains(x) <==> a.contains(x) || b.contains(x),
{
    assert forall|
        a: Seq<(Seq<char>, Seq<char>)>,
        b: Seq<(Seq<char>, Seq<char>)>,
        x: (Seq<char>, Seq<char>),
    | #[trigger] (a + b).contains(x) <==> a.contains(x) || b.contains(x) by {
        let all = a + b;
        if a.contains(x) {
            let i = choose|i: int| 0 <= i < a.len() && a[i] == x;
            assert(all[i] == x);
        }
        if b.contains(x) {
            let i = choose|i: int| 0 <= i < b.len() && b[i] == x;
            assert(all[a.len() + i] == x);
        }
        if all.contains(x) {
            let i = choose|i: int| 0 <= i < all.len() && all[i] == x;
            if i < a.len() {
                assert(a[i] == x);
            } else {
                assert(b[i - a.len()] == x);
            }
        }
    }
}

proof fn lemma_line_if()
    ensures
        forall|c: bool, key: Seq<char>, value: Seq<char>|
            #![trigger export::line_if(c, key, value)]
            c ==> export::line_if(c, key, value).contains((key, value)),
        forall|key: Seq<char>, value: Tristate|
            #![trigger export::tristate_line(key, value)]
            (value == Tristate::True ==> export::tristate_line(key, value).contains(
                (key, "true"@),
            )) && (value == Tristate::False ==> export::tristate_line(key, value).contains(
                (key, "false"@),
            )),
{
    assert forall|c: bool, key: Seq<char>, value: Seq<char>|
        #![trigger export::line_if(c, key, value)]
        c implies export::line_if(c, key, value).contains((key, value)) by {
        assert(export::line_if(c, key, value)[0] == (key, value));
    }
    assert forall|key: Seq<char>, value: Tristate|
        #![trigger export::tristate_line(key, value)]
        (value == Tristate::True ==> export::tristate_line(key, value).contains((key, "true"@)))
            && (value == Tristate::False ==> export::tristate_line(key, value).contains(
            (key, "false"@),
        )) by {
        if value == Tristate::True {
            assert(export::tristate_line(key, value)[0] == (key, "true"@));
        }
        if value == Tristate::False {
            assert(export::tristate_line(key, value)[0] == (key, "false"@));
        }
    }
}

proof fn lemma_measure_lines(s: quest::SettingsModel)
    ensures
        ({
            let lines = export::measure_lines(s);
            &&& s.min_required_dependencies > 0 ==> lines.contains(("min_required_dependencies"@, compose::decimal(s.min_required_dependencies as nat)))
            &&& s.max_completable_dependents > 0 ==> lines.contains(("max_completable_dependents"@, compose::decimal(s.max_completable_dependents as nat)))
            &&& s.min_width > 0 ==> lines.contains(("min_width"@, compose::decimal(s.min_width as nat)))
            &&& !s.icon_scale.is_one ==> lines.contains(("icon_scale"@, s.icon_scale.text + "d"@))
            &&& s.subtitle.len() > 0 ==> lines.contains(("subtitle"@, export::in_quotes(s.subtitle)))
            &&& s.tags.len() > 0 ==> lines.contains(("tags"@, export::quoted_list(s.tags)))
            &&& s.dependency_requirement.len() > 0 && s.dependency_requirement != "all_completed"@ ==> lines.contains(("dependency_requirement"@, export::in_quotes(s.dependency_requirement)))
        }),
{
    lemma_of_both();
    lemma_line_if();
}

proof fn lemma_flag_lines(s: quest::SettingsModel)
    ensures
        ({
            let lines = export::flag_lines(s);
            &&& s.hide_dependent_lines ==> lines.contains(("hide_dependent_lines"@, "true"@))
            &&& s.hide_lock_icon ==> lines.contains(("hide_lock_icon"@, "true"@))
            &&& s.invisible ==> lines.contains(("invisible"@, "true"@))
            &&& s.optional ==> lines.contains(("optional"@, "true"@))
            &&& s.ignore_reward_blocking ==> lines.contains(("ignore_reward_blocking"@, "true"@))
        }),
{
    lemma_of_both();
    lemma_line_if();
}

proof fn lemma_open_lines(s: quest::SettingsModel)
    ensures
        ({
            let lines = export::open_lines(s);
            &&& s.hide_until_deps_visible == Tristate::True ==> lines.contains(("hide_until_deps_visible"@, "true"@))
            &&& s.hide_until_deps_visible == Tristate::False ==> lines.contains(("hide_until_deps_visible"@, "false"@))
            &&& s.hide_until_deps_complete == Tristate::True ==> lines.contains(("hide_until_deps_complete"@, "true"@))
            &&& s.hide_until_deps_complete == Tristate::False ==> lines.contains(("hide_until_deps_complete"@, "false"@))
            &&& s.hide_dependency_lines == Tristate::True ==> lines.contains(("hide_dependency_lines"@, "true"@))
            &&& s.hide_dependency_lines == Tristate::False ==> lines.contains(("hide_dependency_lines"@, "false"@))
            &&& s.hide_details_until_startable == Tristate::True ==> lines.contains(("hide_details_until_startable"@, "true"@))
            &&& s.hide_details_until_startable == Tristate::False ==> lines.contains(("hide_details_until_startable"@, "false"@))
            &&& s.hide_text_until_complete == Tristate::True ==> lines.contains(("hide_text_until_complete"@, "true"@))
            &&& s.hide_text_until_complete == Tristate::False ==> lines.contains(("hide_text_until_complete"@, "false"@))
            &&& s.can_repeat == Tristate::True ==> lines.contains(("can_repeat"@, "true"@))
            &&& s.can_repeat == Tristate::False ==> lines.contains(("can_repeat"@, "false"@))
            &&& s.require_sequential_tasks == Tristate::True ==> lines.contains(("require_sequential_tasks"@, "true"@))
            &&& s.require_sequential_tasks == Tristate::False ==> lines.contains(("require_sequential_tasks"@, "false"@))
            &&& s.disable_recipe_mod == Tristate::True ==> lines.contains(("disable_recipe_mod"@, "true"@))
            &&& s.disable_recipe_mod == Tristate::False ==> lines.contains(("disable_recipe_mod"@, "false"@))
        }),
{
    let p0 = export::tristate_line("hide_until_deps_visible"@, s.hide_until_deps_visible);
    let p1 = export::tristate_line("hide_until_deps_complete"@, s.hide_until_deps_complete);
    let p2 = export::tristate_line("hide_dependency_lines"@, s.hide_dependency_lines);
    let p3 = export::tristate_line("hide_details_until_startable"@, s.hide_details_until_startable);
    let p4 = export::tristate_line("hide_text_until_complete"@, s.hide_text_until_complete);
    let p5 = export::tristate_line("can_repeat"@, s.can_repeat);
    let p6 = export::tristate_line("require_sequential_tasks"@, s.require_sequential_tasks);
    let p7 = export::tristate_line("disable_recipe_mod"@, s.disable_recipe_mod);
    assert forall|x: (Seq<char>, Seq<char>)|
        p0.contains(x) || p1.contains(x) || p2.contains(x) || p3.contains(x) || p4.contains(x) || p5.contains(x) || p6.contains(x) || p7.contains(x) implies #[trigger] export::open_lines(s).contains(x) by {
        lemma_of_both();
    }
    lemma_line_if();
}

proof fn lemma_mode_lines(s: quest::SettingsModel)
    ensures
        ({
            let lines = export::mode_lines(s);
            &&& s.invisible_until_tasks > 0 ==> lines.contains(("invisible_until_tasks"@, compose::decimal(s.invisible_until_tasks as nat)))
            &&& s.repeat_cooldown > 0 ==> lines.contains(("repeat_cooldown"@, compose::decimal(s.repeat_cooldown as nat)))
            &&& s.progression_mode.len() > 0 && s.progression_mode != "default"@ ==> lines.contains(("progression_mode"@, export::in_quotes(s.progression_mode)))
        }),
{
    lemma_of_both();
    lemma_line_if();
}

/// Each setting that is not the usual one has a line with its name; what is true or false and what
/// is a number stands without quotes.
pub proof fn law_settings_have_lines(s: quest::SettingsModel)
    ensures
        ({
            let lines = export::settings_lines(s);
            &&& s.hide_dependent_lines ==> lines.contains(("hide_dependent_lines"@, "true"@))
            &&& s.hide_lock_icon ==> lines.contains(("hide_lock_icon"@, "true"@))
            &&& s.invisible ==> lines.contains(("invisible"@, "true"@))
            &&& s.optional ==> lines.contains(("optional"@, "true"@))
            &&& s.ignore_reward_blocking ==> lines.contains(("ignore_reward_blocking"@, "true"@))
            &&& s.hide_until_deps_visible == Tristate::True ==> lines.contains(("hide_until_deps_visible"@, "true"@))
            &&& s.hide_until_deps_visible == Tristate::False ==> lines.contains(("hide_until_deps_visible"@, "false"@))
            &&& s.hide_until_deps_complete == Tristate::True ==> lines.contains(("hide_until_deps_complete"@, "true"@))
            &&& s.hide_until_deps_complete == Tristate::False ==> lines.contains(("hide_until_deps_complete"@, "false"@))
            &&& s.hide_dependency_lines == Tristate::True ==> lines.contains(("hide_dependency_lines"@, "true"@))
            &&& s.hide_dependency_lines == Tristate::False ==> lines.contains(("hide_dependency_lines"@, "false"@))
            &&& s.hide_details_until_startable == Tristate::True ==> lines.contains(("hide_details_until_startable"@, "true"@))
            &&& s.hide_details_until_startable == Tristate::False ==> lines.contains(("hide_details_until_startable"@, "false"@))
            &&& s.hide_text_until_complete == Tristate::True ==> lines.contains(("hide_text_until_complete"@, "true"@))
            &&& s.hide_text_until_complete == Tristate::False ==> lines.contains(("hide_text_until_complete"@, "false"@))
            &&& s.can_repeat == Tristate::True ==> lines.contains(("can_repeat"@, "true"@))
            &&& s.can_repeat == Tristate::False ==> lines.contains(("can_repeat"@, "false"@))
            &&& s.require_sequential_tasks == Tristate::True ==> lines.contains(("require_sequential_tasks"@, "true"@))
            &&& s.require_sequential_tasks == Tristate::False ==> lines.contains(("require_sequential_tasks"@, "false"@))
            &&& s.disable_recipe_mod == Tristate::True ==> lines.contains(("disable_recipe_mod"@, "true"@))
            &&& s.disable_recipe_mod == Tristate::False ==> lines.contains(("disable_recipe_mod"@, "false"@))
            &&& s.min_required_dependencies > 0 ==> lines.contains(("min_required_dependencies"@, compose::decimal(s.min_required_dependencies as nat)))
            &&& s.max_completable_dependents > 0 ==> lines.contains(("max_completable_dependents"@, compose::decimal(s.max_completable_dependents as nat)))
            &&& s.invisible_until_tasks > 0 ==> lines.contains(("invisible_until_tasks"@, compose::decimal(s.invisible_until_tasks as nat)))
            &&& s.repeat_cooldown > 0 ==> lines.contains(("repeat_cooldown"@, compose::decimal(s.repeat_cooldown as nat)))
            &&& s.min_width > 0 ==> lines.contains(("min_width"@, compose::decimal(s.min_width as nat)))
            &&& !s.icon_scale.is_one ==> lines.contains(("icon_scale"@, s.icon_scale.text + "d"@))
            &&& s.subtitle.len() > 0 ==> lines.contains(("subtitle"@, export::in_quotes(s.subtitle)))
            &&& s.tags.len() > 0 ==> lines.contains(("tags"@, export::quoted_list(s.tags)))
            &&& s.dependency_requirement.len() > 0 && s.dependency_requirement != "all_completed"@ ==> lines.contains(("dependency_requirement"@, export::in_quotes(s.dependency_requirement)))
            &&& s.progression_mode.len() > 0 && s.progression_mode != "default"@ ==> lines.contains(("progression_mode"@, export::in_quotes(s.progression_mode)))
        }),
{
    let a = export::measure_lines(s);
    let b = export::flag_lines(s);
    let c = export::open_lines(s);
    let d = export::mode_lines(s);
    lemma_measure_lines(s);
    lemma_flag_lines(s);
    lemma_open_lines(s);
    lemma_mode_lines(s);
    assert forall|x: (Seq<char>, Seq<char>)|
        a.contains(x) || b.contains(x) || c.contains(x) || d.contains(
            x,
        ) implies #[trigger] export::settings_lines(s).contains(x) by {
        lemma_of_both();
    }
}

/// Each part of a quest has a line with its name: its id and its title always, its place always,
/// and the others where there is something to say.
pub proof fn law_quest_has_lines(
    q: quest::QuestModel,
    numbers: Seq<(Seq<char>, import::ReadingModel)>,
)
    ensures
        ({
            let w = export::quest_text(q, numbers);
            &&& holds_line(w, "id"@, export::in_quotes(q.id))
            &&& holds_line(w, "title"@, export::in_quotes(q.title))
            &&& holds_line(w, "x"@, q.x.text + "d"@)
            &&& holds_line(w, "y"@, q.y.text + "d"@)
            &&& !q.size.is_one ==> holds_line(w, "size"@, q.size.text + "d"@)
            &&& q.shape.len() > 0 ==> holds_line(w, "shape"@, export::in_quotes(q.shape))
            &&& q.dependencies.len() > 0 ==> holds_line(
                w,
                "dependencies"@,
                export::quoted_list(q.dependencies),
            )
            &&& q.description.len() > 0 ==> holds_line(
                w,
                "description"@,
                export::description_text(q.description, q.description_raw),
            )
            &&& q.icon.len() > 0 ==> holds_line(w, "icon"@, export::icon_text(q.icon, q.icon_raw))
            &&& forall|i: int|
                #![trigger q.extra[i]]
                0 <= i < q.extra.len() ==> holds_line(
                    w,
                    q.extra[i].0,
                    notation::written(q.extra[i].1),
                )
            &&& forall|line: (Seq<char>, Seq<char>)| #[trigger]
                export::settings_lines(q.settings).contains(line) ==> holds_line(w, line.0, line.1)
        }),
{
    let lines = export::quest_lines(q, numbers);
    lemma_of_both();
    lemma_line_if();
    assert forall|line: (Seq<char>, Seq<char>)| #[trigger] lines.contains(line) implies holds_line(
        export::quest_text(q, numbers),
        line.0,
        line.1,
    ) by {
        let i = choose|i: int| 0 <= i < lines.len() && lines[i] == line;
        lemma_line_stands(lines, 2, i);
    }
    lemma_single("id"@, export::in_quotes(q.id));
    lemma_single("title"@, export::in_quotes(q.title));
    lemma_single("x"@, export::measure(q.x));
    lemma_single("y"@, export::measure(q.y));
    assert(lines.contains(("id"@, export::in_quotes(q.id))));
    assert(lines.contains(("title"@, export::in_quotes(q.title))));
    assert(lines.contains(("x"@, q.x.text + "d"@)));
    assert(lines.contains(("y"@, q.y.text + "d"@)));
    if !q.size.is_one {
        assert(lines.contains(("size"@, q.size.text + "d"@)));
    }
    if q.shape.len() > 0 {
        assert(lines.contains(("shape"@, export::in_quotes(q.shape))));
    }
    if q.dependencies.len() > 0 {
        assert(lines.contains(("dependencies"@, export::quoted_list(q.dependencies))));
    }
    if q.description.len() > 0 {
        assert(lines.contains(
            ("description"@, export::description_text(q.description, q.description_raw)),
        ));
    }
    if q.icon.len() > 0 {
        assert(lines.contains(("icon"@, export::icon_text(q.icon, q.icon_raw))));
    }
    assert forall|i: int| #![trigger q.extra[i]] 0 <= i < q.extra.len() implies holds_line(
        export::quest_text(q, numbers),
        q.extra[i].0,
        notation::written(q.extra[i].1),
    ) by {
        let line = (q.extra[i].0, notation::written(q.extra[i].1));
        assert(export::extra_lines(q.extra)[i] == line);
        assert(export::extra_lines(q.extra).contains(line));
        assert(lines.contains(line));
    }
    assert forall|line: (Seq<char>, Seq<char>)| #[trigger]
        export::settings_lines(q.settings).contains(line) implies holds_line(
        export::quest_text(q, numbers),
        line.0,
        line.1,
    ) by {
        assert(lines.contains(line));
    }
}

proof fn lemma_single(key: Seq<char>, value: Seq<char>)
    ensures
        seq![(key, value)].contains((key, value)),
{
    assert(seq![(key, value)][0] == (key, value));
}

/// Each part of a chapter has a line with its name; what the game expects and the chapter does not
/// say has a line with a usual value.
pub proof fn law_chapter_has_lines(
    c: quest::ChapterModel,
    numbers: Seq<(Seq<char>, import::ReadingModel)>,
)
    ensures
        ({
            let w = export::chapter_text(c, numbers);
            &&& holds_line(w, "id"@, export::in_quotes(c.id))
            &&& holds_line(w, "title"@, export::in_quotes(c.title))
            &&& holds_line(w, "filename"@, export::in_quotes(c.filename))
            &&& holds_line(w, "order_index"@, compose::signed_decimal(c.order_index as int))
            &&& c.group matches Some(group) ==> holds_line(
                w,
                "group"@,
                export::in_quotes(group),
            )
            &&& c.group is None ==> holds_line(w, "group"@, export::in_quotes(Seq::empty()))
            &&& !table::has_key(c.extra, "default_hide_dependency_lines"@) ==> holds_line(
                w,
                "default_hide_dependency_lines"@,
                "false"@,
            )
            &&& !table::has_key(c.extra, "default_quest_shape"@) ==> holds_line(
                w,
                "default_quest_shape"@,
                "\"\""@,
            )
            &&& !table::has_key(c.extra, "progression_mode"@) ==> holds_line(
                w,
                "progression_mode"@,
                "\"flexible\""@,
            )
            &&& !table::has_key(c.extra, "quest_links"@) ==> holds_line(
                w,
                "quest_links"@,
                "[ ]"@,
            )
            &&& forall|i: int|
                #![trigger c.extra[i]]
                0 <= i < c.extra.len() ==> holds_line(
                    w,
                    c.extra[i].0,
                    notation::written(c.extra[i].1),
                )
        }),
{
    let lines = export::chapter_lines(c, numbers);
    let w = export::chapter_text(c, numbers);
    lemma_of_both();
    lemma_line_if();
    assert forall|line: (Seq<char>, Seq<char>)| #[trigger] lines.contains(line) implies holds_line(
        w,
        line.0,
        line.1,
    ) by {
        let i = choose|i: int| 0 <= i < lines.len() && lines[i] == line;
        lemma_line_stands(lines, 0, i);
        let q = seq!['\t'] + line.0 + ": "@ + line.1 + "\n"@;
        lemma_inside(Seq::empty(), layout::block(lines, 0), "\n"@, q);
        assert(w =~= Seq::<char>::empty() + layout::block(lines, 0) + "\n"@);
    }
    let group = match c.group {
        Some(group) => group,
        None => Seq::empty(),
    };
    lemma_single("id"@, export::in_quotes(c.id));
    lemma_single("title"@, export::in_quotes(c.title));
    lemma_single("filename"@, export::in_quotes(c.filename));
    lemma_single("group"@, export::in_quotes(group));
    lemma_single("order_index"@, compose::signed_decimal(c.order_index as int));
    assert(lines.contains(("id"@, export::in_quotes(c.id))));
    assert(lines.contains(("title"@, export::in_quotes(c.title))));
    assert(lines.contains(("filename"@, export::in_quotes(c.filename))));
    assert(lines.contains(("group"@, export::in_quotes(group))));
    assert(lines.contains(("order_index"@, compose::signed_decimal(c.order_index as int))));
    if !table::has_key(c.extra, "default_hide_dependency_lines"@) {
        assert(lines.contains(("default_hide_dependency_lines"@, "false"@)));
    }
    if !table::has_key(c.extra, "default_quest_shape"@) {
        assert(lines.contains(("default_quest_shape"@, "\"\""@)));
    }
    if !table::has_key(c.extra, "progression_mode"@) {
        assert(lines.contains(("progression_mode"@, "\"flexible\""@)));
    }
    if !table::has_key(c.extra, "quest_links"@) {
        assert(lines.contains(("quest_links"@, "[ ]"@)));
    }
    assert forall|i: int| #![trigger c.extra[i]] 0 <= i < c.extra.len() implies holds_line(
        w,
        c.extra[i].0,
        notation::written(c.extra[i].1),
    ) by {
        let line = (c.extra[i].0, notation::written(c.extra[i].1));
        assert(export::extra_lines(c.extra)[i] == line);
        assert(export::extra_lines(c.extra).contains(line));
        assert(lines.contains(line));
    }
}

/// The file of the book has a line for its title and its grid, and the usual settings of a book.
pub proof fn law_data_has_lines(title: Seq<char>, grid_scale: quest::NumberModel)
    ensures
        ({
            let w = export::data_text(title, grid_scale);
            &&& holds_line(w, "default_autoclaim_rewards"@, "\"disabled\""@)
            &&& holds_line(w, "default_consume_items"@, "false"@)
            &&& holds_line(w, "default_quest_shape"@, "\"circle\""@)
            &&& holds_line(w, "grid_scale"@, grid_scale.text + "d"@)
            &&& holds_line(w, "progression_mode"@, "\"flexible\""@)
            &&& holds_line(w, "title"@, export::in_quotes(title))
            &&& holds_line(w, "version"@, "13"@)
        }),
{
    let lines = export::data_lines(title, grid_scale);
    let w = export::data_text(title, grid_scale);
    assert(w =~= Seq::<char>::empty() + layout::block(lines, 0) + "\n"@);
    assert forall|i: int| 0 <= i < lines.len() implies holds_line(
        w,
        (#[trigger] lines[i]).0,
        lines[i].1,
    ) by {
        lemma_line_stands(lines, 0, i);
        let q = seq!['\t'] + lines[i].0 + ": "@ + lines[i].1 + "\n"@;
        lemma_inside(Seq::empty(), layout::block(lines, 0), "\n"@, q);
    }
    assert(holds_line(w, lines[0].0, lines[0].1));
    assert(holds_line(w, lines[1].0, lines[1].1));
    assert(holds_line(w, lines[2].0, lines[2].1));
    assert(holds_line(w, lines[3].0, lines[3].1));
    assert(holds_line(w, lines[4].0, lines[4].1));
    assert(holds_line(w, lines[5].0, lines[5].1));
    assert(holds_line(w, lines[6].0, lines[6].1));
}

} // verus!
