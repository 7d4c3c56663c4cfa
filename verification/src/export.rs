//! Quests and chapters as they are written.

use crate::compose;
use crate::compose::{number, signed_number};
use crate::import;
use crate::import::{entry_item, entry_item_count, item_id, Reading};
use crate::layout;
use crate::layout::{lay_out_block, lay_out_rows};
use crate::notation;
use crate::order;
use crate::quest;
use crate::quest::{Chapter, ChapterGroup, Number, Quest, QuestSettings, Reward, Task, Tristate};
use crate::snbt;
use crate::snbt::{stringify, Value};
use crate::table;
use crate::table::TextMap;
use crate::text;
use vstd::prelude::*;

verus! {

// ---------------------------------------------------------------------------
// Texts in quotes
// ---------------------------------------------------------------------------

/// How a character stands between quotes.
pub open spec fn escaped(c: char) -> Seq<char> {
    if c == '"' || c == '\\' {
        seq!['\\', c]
    } else if c == '\n' {
        seq!['\\', 'n']
    } else if c == '\r' {
        seq!['\\', 'r']
    } else if c == '\t' {
        seq!['\\', 't']
    } else {
        seq![c]
    }
}

pub open spec fn all_escaped(s: Seq<char>) -> Seq<char>
    decreases s.len(),
{
    if s.len() == 0 {
        Seq::empty()
    } else {
        all_escaped(s.drop_last()) + escaped(s.last())
    }
}

/// The text between quotes.
pub open spec fn in_quotes(s: Seq<char>) -> Seq<char> {
    seq!['"'] + all_escaped(s) + seq!['"']
}

/// The text between quotes.
pub fn quoted(text: &str) -> (r: String)
    ensures
        r@ == in_quotes(text@),
{
    let mut r = String::new();
    r.push('"');
    assert(r@ =~= seq!['"'] + all_escaped(text@.take(0)));
    for c in it: text.chars()
        invariant
            it.seq() == text@,
            r@ == seq!['"'] + all_escaped(text@.take(it.index() as int)),
    {
        let ghost before = r@;
        let ghost after = text@.take(it.index() + 1);
        assert(after.drop_last() =~= text@.take(it.index() as int));
        if c == '"' || c == '\\' {
            r.push('\\');
            r.push(c);
        } else if c == '\n' {
            r.push('\\');
            r.push('n');
        } else if c == '\r' {
            r.push('\\');
            r.push('r');
        } else if c == '\t' {
            r.push('\\');
            r.push('t');
        } else {
            r.push(c);
        }
        assert(r@ =~= before + escaped(c));
    }
    assert(text@.take(text@.len() as int) =~= text@);
    r.push('"');
    assert(r@ =~= in_quotes(text@));
    r
}

/// The texts, each between quotes.
pub open spec fn each_in_quotes(list: Seq<Seq<char>>) -> Seq<Seq<char>> {
    Seq::new(list.len(), |i: int| in_quotes(list[i]))
}

/// A list of texts in one line.
pub open spec fn quoted_list(list: Seq<Seq<char>>) -> Seq<char> {
    "["@ + compose::joined(each_in_quotes(list), " "@) + "]"@
}

fn write_list(list: &Vec<String>) -> (r: String)
    ensures
        r@ == quoted_list(text::texts(list@)),
{
    let mut parts: Vec<String> = Vec::new();
    let mut i: usize = 0;
    while i < list.len()
        invariant
            i <= list@.len(),
            parts@.len() == i,
            forall|j: int| 0 <= j < i ==> (#[trigger] parts@[j])@ == in_quotes(list@[j]@),
        decreases list@.len() - i,
    {
        parts.push(quoted(list[i].as_str()));
        i += 1;
    }
    assert(text::texts(parts@) =~= each_in_quotes(text::texts(list@)));
    let mut r = "[".to_owned();
    r.append(compose::join(&parts, " ").as_str());
    r.append("]");
    r
}

// ---------------------------------------------------------------------------
// Lines
// ---------------------------------------------------------------------------

/// A line that is written only under a condition.
pub open spec fn line_if(condition: bool, key: Seq<char>, value: Seq<char>) -> Seq<
    (Seq<char>, Seq<char>),
> {
    if condition {
        seq![(key, value)]
    } else {
        Seq::empty()
    }
}

fn push_line(lines: &mut Vec<(String, String)>, key: &str, value: String)
    ensures
        layout::lines_of(final(lines)@) == layout::lines_of(old(lines)@) + seq![(key@, value@)],
{
    let ghost before = layout::lines_of(lines@);
    let ghost v = value@;
    lines.push((key.to_owned(), value));
    assert(layout::lines_of(lines@) =~= before + seq![(key@, v)]);
}

fn append_lines(lines: &mut Vec<(String, String)>, more: Vec<(String, String)>)
    ensures
        layout::lines_of(final(lines)@) == layout::lines_of(old(lines)@) + layout::lines_of(more@),
{
    let ghost before = layout::lines_of(lines@);
    let ghost all = layout::lines_of(more@);
    let mut i: usize = 0;
    assert(before + all.take(0) =~= before);
    while i < more.len()
        invariant
            i <= more@.len(),
            all == layout::lines_of(more@),
            layout::lines_of(lines@) == before + all.take(i as int),
        decreases more@.len() - i,
    {
        push_line(lines, more[i].0.as_str(), more[i].1.clone());
        assert(layout::lines_of(lines@) =~= before + all.take(i + 1));
        i += 1;
    }
    assert(all.take(i as int) =~= all);
}

/// No lines, to which lines are added.
fn no_lines() -> (r: Vec<(String, String)>)
    ensures
        layout::lines_of(r@).len() == 0,
        forall|more: Seq<(Seq<char>, Seq<char>)>| #[trigger] (layout::lines_of(r@) + more) == more,
{
    let r: Vec<(String, String)> = Vec::new();
    assert forall|more: Seq<(Seq<char>, Seq<char>)>| #[trigger]
        (layout::lines_of(r@) + more) == more by {
        assert(layout::lines_of(r@) + more =~= more);
    }
    r
}

/// The lines of the fields that are only kept.
pub open spec fn extra_lines(extra: Seq<(Seq<char>, notation::Node)>) -> Seq<
    (Seq<char>, Seq<char>),
> {
    Seq::new(extra.len(), |i: int| (extra[i].0, notation::written(extra[i].1)))
}

fn write_extra_fields(lines: &mut Vec<(String, String)>, extra: &TextMap<Value>)
    ensures
        layout::lines_of(final(lines)@) == layout::lines_of(old(lines)@) + extra_lines(
            snbt::nodes_of(extra@),
        ),
{
    let ghost before = layout::lines_of(lines@);
    let ghost all = extra_lines(snbt::nodes_of(extra@));
    let n: usize = extra.len();
    let mut i: usize = 0;
    assert(layout::lines_of(lines@) =~= before + all.take(0));
    while i < n
        invariant
            i <= n == extra@.len() == all.len(),
            all == extra_lines(snbt::nodes_of(extra@)),
            layout::lines_of(lines@) == before + all.take(i as int),
        decreases n - i,
    {
        let value = stringify(extra.value_at(i));
        push_line(lines, extra.key_at(i), value);
        assert(layout::lines_of(lines@) =~= before + all.take(i + 1));
        i += 1;
    }
    assert(all.take(i as int) =~= all);
}

fn write_string_field(lines: &mut Vec<(String, String)>, key: &str, value: &str)
    ensures
        layout::lines_of(final(lines)@) == layout::lines_of(old(lines)@) + line_if(
            value@.len() > 0,
            key@,
            in_quotes(value@),
        ),
{
    if text::chars_of(value).len() > 0 {
        push_line(lines, key, quoted(value));
    } else {
        assert(layout::lines_of(lines@) =~= layout::lines_of(lines@) + Seq::empty());
    }
}

/// A number with the mark of its type.
pub open spec fn measure(n: quest::NumberModel) -> Seq<char> {
    n.text + "d"@
}

fn write_measure(value: &Number) -> (r: String)
    ensures
        r@ == measure(value@),
{
    let mut r = value.text().to_owned();
    r.append("d");
    r
}

/// Writes a number that is not one.
fn write_non_default_number(lines: &mut Vec<(String, String)>, key: &str, value: &Number)
    ensures
        layout::lines_of(final(lines)@) == layout::lines_of(old(lines)@) + line_if(
            !value@.is_one,
            key@,
            measure(value@),
        ),
{
    if !value.is_one() {
        push_line(lines, key, write_measure(value));
    } else {
        assert(layout::lines_of(lines@) =~= layout::lines_of(lines@) + Seq::empty());
    }
}

fn write_positive_i32(lines: &mut Vec<(String, String)>, key: &str, value: i32)
    ensures
        layout::lines_of(final(lines)@) == layout::lines_of(old(lines)@) + line_if(
            value > 0,
            key@,
            compose::signed_decimal(value as int),
        ),
{
    if value > 0 {
        push_line(lines, key, signed_number(value as i64));
    } else {
        assert(layout::lines_of(lines@) =~= layout::lines_of(lines@) + Seq::empty());
    }
}

fn write_positive_u32(lines: &mut Vec<(String, String)>, key: &str, value: u32)
    ensures
        layout::lines_of(final(lines)@) == layout::lines_of(old(lines)@) + line_if(
            value > 0,
            key@,
            compose::decimal(value as nat),
        ),
{
    if value > 0 {
        push_line(lines, key, number(value as u128));
    } else {
        assert(layout::lines_of(lines@) =~= layout::lines_of(lines@) + Seq::empty());
    }
}

fn write_flag(lines: &mut Vec<(String, String)>, key: &str, value: bool)
    ensures
        layout::lines_of(final(lines)@) == layout::lines_of(old(lines)@) + line_if(
            value,
            key@,
            "true"@,
        ),
{
    if value {
        push_line(lines, key, "true".to_owned());
    } else {
        assert(layout::lines_of(lines@) =~= layout::lines_of(lines@) + Seq::empty());
    }
}

/// The line of a setting that can be left open.
pub open spec fn tristate_line(key: Seq<char>, value: Tristate) -> Seq<(Seq<char>, Seq<char>)> {
    match value {
        Tristate::Default => Seq::empty(),
        Tristate::True => seq![(key, "true"@)],
        Tristate::False => seq![(key, "false"@)],
    }
}

fn write_tristate(lines: &mut Vec<(String, String)>, key: &str, value: Tristate)
    ensures
        layout::lines_of(final(lines)@) == layout::lines_of(old(lines)@) + tristate_line(
            key@,
            value,
        ),
{
    match value {
        Tristate::Default => {
            assert(layout::lines_of(lines@) =~= layout::lines_of(lines@) + Seq::empty());
        },
        Tristate::True => push_line(lines, key, "true".to_owned()),
        Tristate::False => push_line(lines, key, "false".to_owned()),
    }
}

// ---------------------------------------------------------------------------
// Settings
// ---------------------------------------------------------------------------

/// The lines of the texts and numbers among the settings of a quest.
pub open spec fn measure_lines(settings: quest::SettingsModel) -> Seq<(Seq<char>, Seq<char>)> {
    line_if(settings.subtitle.len() > 0, "subtitle"@, in_quotes(settings.subtitle)) + line_if(
        settings.tags.len() > 0,
        "tags"@,
        quoted_list(settings.tags),
    ) + line_if(!settings.icon_scale.is_one, "icon_scale"@, measure(settings.icon_scale)) + line_if(
        settings.min_width > 0,
        "min_width"@,
        compose::signed_decimal(settings.min_width as int),
    ) + line_if(
        settings.dependency_requirement != "all_completed"@
            && settings.dependency_requirement.len() > 0,
        "dependency_requirement"@,
        in_quotes(settings.dependency_requirement),
    ) + line_if(
        settings.min_required_dependencies > 0,
        "min_required_dependencies"@,
        compose::decimal(settings.min_required_dependencies as nat),
    ) + line_if(
        settings.max_completable_dependents > 0,
        "max_completable_dependents"@,
        compose::decimal(settings.max_completable_dependents as nat),
    )
}

/// The lines of the settings of a quest that are on or off.
pub open spec fn flag_lines(settings: quest::SettingsModel) -> Seq<(Seq<char>, Seq<char>)> {
    line_if(settings.hide_dependent_lines, "hide_dependent_lines"@, "true"@) + line_if(settings.hide_lock_icon, "hide_lock_icon"@, "true"@) + line_if(settings.invisible, "invisible"@, "true"@) + line_if(settings.optional, "optional"@, "true"@) + line_if(settings.ignore_reward_blocking, "ignore_reward_blocking"@, "true"@)
}

/// The lines of the settings of a quest that can be left open.
pub open spec fn open_lines(settings: quest::SettingsModel) -> Seq<(Seq<char>, Seq<char>)> {
    tristate_line("hide_until_deps_visible"@, settings.hide_until_deps_visible) + tristate_line("hide_until_deps_complete"@, settings.hide_until_deps_complete) + tristate_line("hide_dependency_lines"@, settings.hide_dependency_lines) + tristate_line("hide_details_until_startable"@, settings.hide_details_until_startable) + tristate_line("hide_text_until_complete"@, settings.hide_text_until_complete) + tristate_line("can_repeat"@, settings.can_repeat) + tristate_line("require_sequential_tasks"@, settings.require_sequential_tasks) + tristate_line("disable_recipe_mod"@, settings.disable_recipe_mod)
}

/// The lines of the settings of a quest that stand last.
pub open spec fn mode_lines(settings: quest::SettingsModel) -> Seq<(Seq<char>, Seq<char>)> {
    line_if(
        settings.invisible_until_tasks > 0,
        "invisible_until_tasks"@,
        compose::decimal(settings.invisible_until_tasks as nat),
    ) + line_if(
        settings.repeat_cooldown > 0,
        "repeat_cooldown"@,
        compose::decimal(settings.repeat_cooldown as nat),
    ) + line_if(
        settings.progression_mode != "default"@ && settings.progression_mode.len() > 0,
        "progression_mode"@,
        in_quotes(settings.progression_mode),
    )
}

/// The lines of the settings of a quest.
pub open spec fn settings_lines(settings: quest::SettingsModel) -> Seq<(Seq<char>, Seq<char>)> {
    measure_lines(settings) + flag_lines(settings) + open_lines(settings) + mode_lines(settings)
}

fn write_measures(settings: &QuestSettings) -> (r: Vec<(String, String)>)
    ensures
        layout::lines_of(r@) == measure_lines(settings@),
{
    let mut lines = no_lines();
    write_string_field(&mut lines, "subtitle", settings.subtitle.as_str());
    if settings.tags.len() > 0 {
        push_line(&mut lines, "tags", write_list(&settings.tags));
    } else {
        assert(layout::lines_of(lines@) =~= layout::lines_of(lines@) + Seq::empty());
    }
    write_non_default_number(&mut lines, "icon_scale", &settings.icon_scale);
    write_positive_i32(&mut lines, "min_width", settings.min_width);
    if !text::same(settings.dependency_requirement.as_str(), "all_completed") {
        write_string_field(
            &mut lines,
            "dependency_requirement",
            settings.dependency_requirement.as_str(),
        );
    } else {
        assert(layout::lines_of(lines@) =~= layout::lines_of(lines@) + Seq::empty());
    }
    write_positive_u32(
        &mut lines,
        "min_required_dependencies",
        settings.min_required_dependencies,
    );
    write_positive_u32(
        &mut lines,
        "max_completable_dependents",
        settings.max_completable_dependents,
    );
    lines
}

fn write_flags(settings: &QuestSettings) -> (r: Vec<(String, String)>)
    ensures
        layout::lines_of(r@) == flag_lines(settings@),
{
    let mut lines = no_lines();
    write_flag(&mut lines, "hide_dependent_lines", settings.hide_dependent_lines);
    write_flag(&mut lines, "hide_lock_icon", settings.hide_lock_icon);
    write_flag(&mut lines, "invisible", settings.invisible);
    write_flag(&mut lines, "optional", settings.optional);
    write_flag(&mut lines, "ignore_reward_blocking", settings.ignore_reward_blocking);
    lines
}

fn write_open_settings(settings: &QuestSettings) -> (r: Vec<(String, String)>)
    ensures
        layout::lines_of(r@) == open_lines(settings@),
{
    let mut lines = no_lines();
    write_tristate(&mut lines, "hide_until_deps_visible", settings.hide_until_deps_visible);
    write_tristate(&mut lines, "hide_until_deps_complete", settings.hide_until_deps_complete);
    write_tristate(&mut lines, "hide_dependency_lines", settings.hide_dependency_lines);
    write_tristate(&mut lines, "hide_details_until_startable", settings.hide_details_until_startable);
    write_tristate(&mut lines, "hide_text_until_complete", settings.hide_text_until_complete);
    write_tristate(&mut lines, "can_repeat", settings.can_repeat);
    write_tristate(&mut lines, "require_sequential_tasks", settings.require_sequential_tasks);
    write_tristate(&mut lines, "disable_recipe_mod", settings.disable_recipe_mod);
    lines
}

fn write_modes(settings: &QuestSettings) -> (r: Vec<(String, String)>)
    ensures
        layout::lines_of(r@) == mode_lines(settings@),
{
    let mut lines = no_lines();
    write_positive_u32(&mut lines, "invisible_until_tasks", settings.invisible_until_tasks);
    write_positive_u32(&mut lines, "repeat_cooldown", settings.repeat_cooldown);
    if !text::same(settings.progression_mode.as_str(), "default") {
        write_string_field(&mut lines, "progression_mode", settings.progression_mode.as_str());
    } else {
        assert(layout::lines_of(lines@) =~= layout::lines_of(lines@) + Seq::empty());
    }
    lines
}

fn write_quest_settings(settings: &QuestSettings) -> (r: Vec<(String, String)>)
    ensures
        layout::lines_of(r@) == settings_lines(settings@),
{
    let mut lines = write_measures(settings);
    append_lines(&mut lines, write_flags(settings));
    append_lines(&mut lines, write_open_settings(settings));
    append_lines(&mut lines, write_modes(settings));
    lines
}

// ---------------------------------------------------------------------------
// Tasks and rewards that were read
// ---------------------------------------------------------------------------

/// The value with a text in a field, where it has fields.
pub open spec fn with_scalar(n: notation::Node, key: Seq<char>, s: Seq<char>) -> notation::Node {
    match n {
        notation::Node::Compound(entries) => notation::Node::Compound(
            table::upsert(entries, key, notation::Node::Scalar(s)),
        ),
        other => other,
    }
}

/// Puts a text into a field, where the value has fields.
pub fn set_scalar(value: &mut Value, key: &str, field_value: String)
    ensures
        final(value)@ == with_scalar(old(value)@, key@, field_value@),
{
    proof {
        snbt::lemma_view(*value);
    }
    match value {
        Value::Compound(map) => {
            let scalar = Value::Scalar(field_value);
            proof {
                table::lemma_mapped(map@, |v: Value| v@, key@);
                snbt::lemma_view(scalar);
            }
            map.insert(key.to_owned(), scalar);
        },
        _ => {},
    }
    proof {
        snbt::lemma_view(*value);
    }
}

/// The value with its item and count where they have changed.
pub open spec fn with_item(
    n: notation::Node,
    raw: notation::Node,
    item: Seq<char>,
    count: u32,
    numbers: Seq<(Seq<char>, import::ReadingModel)>,
) -> notation::Node {
    let named = if item != import::item_or_empty(snbt::field(raw, "item"@)) {
        with_scalar(n, "item"@, item)
    } else {
        n
    };
    if count != import::item_count_of(raw, numbers) {
        with_scalar(named, "count"@, compose::decimal(count as nat) + "L"@)
    } else {
        named
    }
}

fn long_number(count: u32) -> (r: String)
    ensures
        r@ == compose::decimal(count as nat) + "L"@,
{
    let mut r = number(count as u128);
    r.append("L");
    r
}

fn merge_item_fields(
    value: &mut Value,
    raw: &Value,
    item: &str,
    count: u32,
    numbers: &TextMap<Reading>,
)
    ensures
        final(value)@ == with_item(
            old(value)@,
            raw@,
            item@,
            count,
            import::readings_of(*numbers),
        ),
{
    if !text::same(item, entry_item(raw).as_str()) {
        set_scalar(value, "item", item.to_owned());
    }
    if count != entry_item_count(raw, numbers) {
        set_scalar(value, "count", long_number(count));
    }
}

/// The value of a task that was read, with what has changed since.
pub open spec fn merged_task(
    task: quest::TaskModel,
    numbers: Seq<(Seq<char>, import::ReadingModel)>,
) -> Option<notation::Node> {
    match task {
        quest::TaskModel::Unsupported { kind, raw } => Some(raw),
        quest::TaskModel::Checkmark { id, title, raw: Some(raw) } => Some(
            with_scalar(
                with_scalar(with_scalar(raw, "id"@, id), "title"@, title),
                "type"@,
                "checkmark"@,
            ),
        ),
        quest::TaskModel::Item { id, title, item, count, raw: Some(raw) } => Some(
            with_item(
                with_scalar(
                    with_scalar(with_scalar(raw, "id"@, id), "title"@, title),
                    "type"@,
                    "item"@,
                ),
                raw,
                item,
                count,
                numbers,
            ),
        ),
        quest::TaskModel::Kill { id, title, entity, count, raw: Some(raw) } => Some(
            with_scalar(
                with_scalar(
                    with_scalar(
                        with_scalar(with_scalar(raw, "id"@, id), "title"@, title),
                        "entity"@,
                        entity,
                    ),
                    "type"@,
                    "kill"@,
                ),
                "value"@,
                compose::decimal(count as nat) + "L"@,
            ),
        ),
        _ => None,
    }
}

/// The value of a reward that was read, with what has changed since.
pub open spec fn merged_reward(
    reward: quest::RewardModel,
    numbers: Seq<(Seq<char>, import::ReadingModel)>,
) -> Option<notation::Node> {
    match reward {
        quest::RewardModel::Unsupported { kind, raw } => Some(raw),
        quest::RewardModel::Xp { id, amount, raw: Some(raw) } => Some(
            with_scalar(
                with_scalar(with_scalar(raw, "id"@, id), "type"@, "xp"@),
                "xp"@,
                compose::decimal(amount as nat),
            ),
        ),
        quest::RewardModel::Item { id, item, count, raw: Some(raw) } => Some(
            with_item(
                with_scalar(with_scalar(raw, "id"@, id), "type"@, "item"@),
                raw,
                item,
                count,
                numbers,
            ),
        ),
        _ => None,
    }
}

/// The value of a task that was read, with what has changed since.
pub fn merged_task_value(task: &Task, numbers: &TextMap<Reading>) -> (r: Option<Value>)
    ensures
        quest::opt_node(r) == merged_task(task@, import::readings_of(*numbers)),
{
    match task {
        Task::Unsupported { kind, raw } => Some(raw.copy()),
        Task::Checkmark { id, title, raw: Some(raw) } => {
            let mut value = raw.copy();
            set_scalar(&mut value, "id", id.clone());
            set_scalar(&mut value, "title", title.clone());
            set_scalar(&mut value, "type", "checkmark".to_owned());
            Some(value)
        },
        Task::Item { id, title, item, count, raw: Some(raw) } => {
            let mut value = raw.copy();
            set_scalar(&mut value, "id", id.clone());
            set_scalar(&mut value, "title", title.clone());
            set_scalar(&mut value, "type", "item".to_owned());
            merge_item_fields(&mut value, raw, item.as_str(), *count, numbers);
            Some(value)
        },
        Task::Kill { id, title, entity, count, raw: Some(raw) } => {
            let mut value = raw.copy();
            set_scalar(&mut value, "id", id.clone());
            set_scalar(&mut value, "title", title.clone());
            set_scalar(&mut value, "entity", entity.clone());
            set_scalar(&mut value, "type", "kill".to_owned());
            set_scalar(&mut value, "value", long_number(*count));
            Some(value)
        },
        _ => None,
    }
}

/// The value of a reward that was read, with what has changed since.
pub fn merged_reward_value(reward: &Reward, numbers: &TextMap<Reading>) -> (r: Option<Value>)
    ensures
        quest::opt_node(r) == merged_reward(reward@, import::readings_of(*numbers)),
{
    match reward {
        Reward::Unsupported { kind, raw } => Some(raw.copy()),
        Reward::Xp { id, amount, raw: Some(raw) } => {
            let mut value = raw.copy();
            set_scalar(&mut value, "id", id.clone());
            set_scalar(&mut value, "type", "xp".to_owned());
            set_scalar(&mut value, "xp", number(*amount as u128));
            Some(value)
        },
        Reward::Item { id, item, count, raw: Some(raw) } => {
            let mut value = raw.copy();
            set_scalar(&mut value, "id", id.clone());
            set_scalar(&mut value, "type", "item".to_owned());
            merge_item_fields(&mut value, raw, item.as_str(), *count, numbers);
            Some(value)
        },
        _ => None,
    }
}

// ---------------------------------------------------------------------------
// Tasks and rewards
// ---------------------------------------------------------------------------

/// The lines of a task that was not read.
pub open spec fn task_lines(task: quest::TaskModel) -> Seq<(Seq<char>, Seq<char>)> {
    match task {
        quest::TaskModel::Checkmark { id, title, raw } => seq![
            ("id"@, in_quotes(id)),
            ("title"@, in_quotes(title)),
            ("type"@, "\"checkmark\""@),
        ],
        quest::TaskModel::Item { id, title, item, count, raw } => seq![
            ("count"@, compose::decimal(count as nat) + "L"@),
            ("id"@, in_quotes(id)),
            ("item"@, in_quotes(item)),
            ("title"@, in_quotes(title)),
            ("type"@, "\"item\""@),
        ],
        quest::TaskModel::Kill { id, title, entity, count, raw } => seq![
            ("entity"@, in_quotes(entity)),
            ("id"@, in_quotes(id)),
            ("title"@, in_quotes(title)),
            ("type"@, "\"kill\""@),
            ("value"@, compose::decimal(count as nat) + "L"@),
        ],
        quest::TaskModel::Unsupported { kind, raw } => Seq::empty(),
    }
}

/// The lines of a reward that was not read.
pub open spec fn reward_lines(reward: quest::RewardModel) -> Seq<(Seq<char>, Seq<char>)> {
    match reward {
        quest::RewardModel::Xp { id, amount, raw } => seq![
            ("id"@, in_quotes(id)),
            ("type"@, "\"xp\""@),
            ("xp"@, compose::decimal(amount as nat)),
        ],
        quest::RewardModel::Item { id, item, count, raw } => seq![
            ("count"@, compose::decimal(count as nat)),
            ("id"@, in_quotes(id)),
            ("item"@, in_quotes(item)),
            ("type"@, "\"item\""@),
        ],
        quest::RewardModel::Unsupported { kind, raw } => Seq::empty(),
    }
}

/// The text of a task.
pub open spec fn task_text(
    task: quest::TaskModel,
    numbers: Seq<(Seq<char>, import::ReadingModel)>,
) -> Seq<char> {
    match merged_task(task, numbers) {
        Some(n) => notation::written(n),
        None => layout::block(task_lines(task), 4),
    }
}

/// The text of a reward.
pub open spec fn reward_text(
    reward: quest::RewardModel,
    numbers: Seq<(Seq<char>, import::ReadingModel)>,
) -> Seq<char> {
    match merged_reward(reward, numbers) {
        Some(n) => notation::written(n),
        None => layout::block(reward_lines(reward), 4),
    }
}

fn write_task(task: &Task, numbers: &TextMap<Reading>) -> (r: String)
    ensures
        r@ == task_text(task@, import::readings_of(*numbers)),
{
    if let Some(value) = merged_task_value(task, numbers) {
        return stringify(&value);
    }
    let mut lines: Vec<(String, String)> = Vec::new();
    match task {
        Task::Checkmark { id, title, raw } => {
            push_line(&mut lines, "id", quoted(id.as_str()));
            push_line(&mut lines, "title", quoted(title.as_str()));
            push_line(&mut lines, "type", "\"checkmark\"".to_owned());
        },
        Task::Item { id, title, item, count, raw } => {
            push_line(&mut lines, "count", long_number(*count));
            push_line(&mut lines, "id", quoted(id.as_str()));
            push_line(&mut lines, "item", quoted(item.as_str()));
            push_line(&mut lines, "title", quoted(title.as_str()));
            push_line(&mut lines, "type", "\"item\"".to_owned());
        },
        Task::Kill { id, title, entity, count, raw } => {
            push_line(&mut lines, "entity", quoted(entity.as_str()));
            push_line(&mut lines, "id", quoted(id.as_str()));
            push_line(&mut lines, "title", quoted(title.as_str()));
            push_line(&mut lines, "type", "\"kill\"".to_owned());
            push_line(&mut lines, "value", long_number(*count));
        },
        Task::Unsupported { kind, raw } => {},
    }
    assert(layout::lines_of(lines@) =~= task_lines(task@));
    lay_out_block(&lines, 4)
}

fn write_reward(reward: &Reward, numbers: &TextMap<Reading>) -> (r: String)
    ensures
        r@ == reward_text(reward@, import::readings_of(*numbers)),
{
    if let Some(value) = merged_reward_value(reward, numbers) {
        return stringify(&value);
    }
    let mut lines: Vec<(String, String)> = Vec::new();
    match reward {
        Reward::Xp { id, amount, raw } => {
            push_line(&mut lines, "id", quoted(id.as_str()));
            push_line(&mut lines, "type", "\"xp\"".to_owned());
            push_line(&mut lines, "xp", number(*amount as u128));
        },
        Reward::Item { id, item, count, raw } => {
            push_line(&mut lines, "count", number(*count as u128));
            push_line(&mut lines, "id", quoted(id.as_str()));
            push_line(&mut lines, "item", quoted(item.as_str()));
            push_line(&mut lines, "type", "\"item\"".to_owned());
        },
        Reward::Unsupported { kind, raw } => {},
    }
    assert(layout::lines_of(lines@) =~= reward_lines(reward@));
    lay_out_block(&lines, 4)
}

/// The texts of tasks.
pub open spec fn task_texts(
    list: Seq<quest::TaskModel>,
    numbers: Seq<(Seq<char>, import::ReadingModel)>,
) -> Seq<Seq<char>> {
    Seq::new(list.len(), |i: int| task_text(list[i], numbers))
}

fn write_tasks(list: &Vec<Task>, numbers: &TextMap<Reading>) -> (r: Vec<String>)
    ensures
        text::texts(r@) == task_texts(order::views(list@), import::readings_of(*numbers)),
{
    let mut r: Vec<String> = Vec::new();
    let mut i: usize = 0;
    while i < list.len()
        invariant
            i <= list@.len(),
            r@.len() == i,
            forall|j: int|
                0 <= j < i ==> (#[trigger] r@[j])@ == task_text(
                    list@[j]@,
                    import::readings_of(*numbers),
                ),
        decreases list@.len() - i,
    {
        r.push(write_task(&list[i], numbers));
        i += 1;
    }
    assert(text::texts(r@) =~= task_texts(order::views(list@), import::readings_of(*numbers)));
    r
}

/// The texts of rewards.
pub open spec fn reward_texts(
    list: Seq<quest::RewardModel>,
    numbers: Seq<(Seq<char>, import::ReadingModel)>,
) -> Seq<Seq<char>> {
    Seq::new(list.len(), |i: int| reward_text(list[i], numbers))
}

fn write_rewards(list: &Vec<Reward>, numbers: &TextMap<Reading>) -> (r: Vec<String>)
    ensures
        text::texts(r@) == reward_texts(order::views(list@), import::readings_of(*numbers)),
{
    let mut r: Vec<String> = Vec::new();
    let mut i: usize = 0;
    while i < list.len()
        invariant
            i <= list@.len(),
            r@.len() == i,
            forall|j: int|
                0 <= j < i ==> (#[trigger] r@[j])@ == reward_text(
                    list@[j]@,
                    import::readings_of(*numbers),
                ),
        decreases list@.len() - i,
    {
        r.push(write_reward(&list[i], numbers));
        i += 1;
    }
    assert(text::texts(r@) =~= reward_texts(order::views(list@), import::readings_of(*numbers)));
    r
}

// ---------------------------------------------------------------------------
// Quests
// ---------------------------------------------------------------------------

/// The items of a list, or none.
pub open spec fn items_or_none(n: notation::Node) -> Seq<notation::Node> {
    match n {
        notation::Node::List(values) => values,
        _ => Seq::empty(),
    }
}

/// The text of a description: the value it was read from if it still says the same.
pub open spec fn description_text(description: Seq<char>, raw: Option<notation::Node>) -> Seq<char> {
    match raw {
        Some(n) if compose::joined(import::scalars_in(items_or_none(n)), "\n"@) == description
            => notation::written(n),
        _ => "["@ + in_quotes(description) + "]"@,
    }
}

/// The text of an icon: the value it was read from if it still says the same.
pub open spec fn icon_text(icon: Seq<char>, raw: Option<notation::Node>) -> Seq<char> {
    match raw {
        Some(n) if import::item_of(Some(n)) == Some(icon) => notation::written(n),
        _ => in_quotes(icon),
    }
}

/// The lines of a quest.
pub open spec fn quest_lines(
    q: quest::QuestModel,
    numbers: Seq<(Seq<char>, import::ReadingModel)>,
) -> Seq<(Seq<char>, Seq<char>)> {
    extra_lines(q.extra) + line_if(
        q.dependencies.len() > 0,
        "dependencies"@,
        quoted_list(q.dependencies),
    ) + line_if(
        q.description.len() > 0,
        "description"@,
        description_text(q.description, q.description_raw),
    ) + line_if(q.icon.len() > 0, "icon"@, icon_text(q.icon, q.icon_raw)) + settings_lines(
        q.settings,
    ) + seq![("id"@, in_quotes(q.id))] + seq![
        ("rewards"@, layout::rows(reward_texts(q.rewards, numbers), 3)),
    ] + line_if(q.shape.len() > 0, "shape"@, in_quotes(q.shape)) + line_if(
        !q.size.is_one,
        "size"@,
        measure(q.size),
    ) + seq![("tasks"@, layout::rows(task_texts(q.tasks, numbers), 3))] + seq![
        ("title"@, in_quotes(q.title)),
    ] + seq![("x"@, measure(q.x))] + seq![("y"@, measure(q.y))]
}

/// The text of a quest.
pub open spec fn quest_text(
    q: quest::QuestModel,
    numbers: Seq<(Seq<char>, import::ReadingModel)>,
) -> Seq<char> {
    layout::block(quest_lines(q, numbers), 2)
}

fn write_description(description: &str, raw: &Option<Value>) -> (r: String)
    ensures
        r@ == description_text(description@, quest::opt_node(*raw)),
{
    if let Some(value) = raw {
        proof {
            snbt::lemma_view(*value);
        }
        let lines = match value {
            Value::List(values) => import::texts_among(values),
            _ => Vec::new(),
        };
        assert(text::texts(lines@) =~= import::scalars_in(items_or_none(value@)));
        if text::same(compose::join(&lines, "\n").as_str(), description) {
            return stringify(value);
        }
    }
    let mut r = "[".to_owned();
    r.append(quoted(description).as_str());
    r.append("]");
    r
}

fn write_icon(icon: &str, raw: &Option<Value>) -> (r: String)
    ensures
        r@ == icon_text(icon@, quest::opt_node(*raw)),
{
    if let Some(value) = raw {
        if let Some(found) = item_id(Some(value)) {
            if text::same(found.as_str(), icon) {
                return stringify(value);
            }
        }
    }
    quoted(icon)
}

/// The text of a quest.
pub fn write_quest(quest: &Quest, numbers: &TextMap<Reading>) -> (r: String)
    ensures
        r@ == quest_text(quest@, import::readings_of(*numbers)),
{
    let ghost none = Seq::<(Seq<char>, Seq<char>)>::empty();
    let mut lines: Vec<(String, String)> = Vec::new();
    assert(layout::lines_of(lines@) + extra_lines(quest@.extra) =~= extra_lines(quest@.extra));
    write_extra_fields(&mut lines, &quest.extra);
    if quest.dependencies.len() > 0 {
        push_line(&mut lines, "dependencies", write_list(&quest.dependencies));
    } else {
        assert(layout::lines_of(lines@) + none =~= layout::lines_of(lines@));
    }
    if text::chars_of(quest.description.as_str()).len() > 0 {
        let value = write_description(quest.description.as_str(), &quest.description_raw);
        push_line(&mut lines, "description", value);
    } else {
        assert(layout::lines_of(lines@) + none =~= layout::lines_of(lines@));
    }
    if text::chars_of(quest.icon.as_str()).len() > 0 {
        let value = write_icon(quest.icon.as_str(), &quest.icon_raw);
        push_line(&mut lines, "icon", value);
    } else {
        assert(layout::lines_of(lines@) + none =~= layout::lines_of(lines@));
    }
    append_lines(&mut lines, write_quest_settings(&quest.settings));
    push_line(&mut lines, "id", quoted(quest.id.as_str()));
    let rewards = write_rewards(&quest.rewards, numbers);
    push_line(&mut lines, "rewards", lay_out_rows(&rewards, 3));
    write_string_field(&mut lines, "shape", quest.shape.as_str());
    write_non_default_number(&mut lines, "size", &quest.size);
    let tasks = write_tasks(&quest.tasks, numbers);
    push_line(&mut lines, "tasks", lay_out_rows(&tasks, 3));
    push_line(&mut lines, "title", quoted(quest.title.as_str()));
    push_line(&mut lines, "x", write_measure(&quest.x));
    push_line(&mut lines, "y", write_measure(&quest.y));
    lay_out_block(&lines, 2)
}

/// The texts of quests.
pub open spec fn quest_texts(
    list: Seq<quest::QuestModel>,
    numbers: Seq<(Seq<char>, import::ReadingModel)>,
) -> Seq<Seq<char>> {
    Seq::new(list.len(), |i: int| quest_text(list[i], numbers))
}

fn write_quests(list: &Vec<Quest>, numbers: &TextMap<Reading>) -> (r: Vec<String>)
    ensures
        text::texts(r@) == quest_texts(order::views(list@), import::readings_of(*numbers)),
{
    let mut r: Vec<String> = Vec::new();
    let mut i: usize = 0;
    while i < list.len()
        invariant
            i <= list@.len(),
            r@.len() == i,
            forall|j: int|
                0 <= j < i ==> (#[trigger] r@[j])@ == quest_text(
                    list@[j]@,
                    import::readings_of(*numbers),
                ),
        decreases list@.len() - i,
    {
        r.push(write_quest(&list[i], numbers));
        i += 1;
    }
    assert(text::texts(r@) =~= quest_texts(order::views(list@), import::readings_of(*numbers)));
    r
}

// ---------------------------------------------------------------------------
// Chapters, groups and the book
// ---------------------------------------------------------------------------

/// The lines of a chapter.
pub open spec fn chapter_lines(
    c: quest::ChapterModel,
    numbers: Seq<(Seq<char>, import::ReadingModel)>,
) -> Seq<(Seq<char>, Seq<char>)> {
    extra_lines(c.extra) + line_if(
        !table::has_key(c.extra, "default_hide_dependency_lines"@),
        "default_hide_dependency_lines"@,
        "false"@,
    ) + line_if(
        !table::has_key(c.extra, "default_quest_shape"@),
        "default_quest_shape"@,
        "\"\""@,
    ) + seq![("filename"@, in_quotes(c.filename))] + seq![
        (
            "group"@,
            in_quotes(
                match c.group {
                    Some(group) => group,
                    None => Seq::empty(),
                },
            ),
        ),
    ] + seq![("id"@, in_quotes(c.id))] + seq![
        ("order_index"@, compose::signed_decimal(c.order_index as int)),
    ] + line_if(
        !table::has_key(c.extra, "progression_mode"@),
        "progression_mode"@,
        "\"flexible\""@,
    ) + line_if(!table::has_key(c.extra, "quest_links"@), "quest_links"@, "[ ]"@) + seq![
        ("quests"@, layout::rows(quest_texts(c.quests, numbers), 1)),
    ] + seq![("title"@, in_quotes(c.title))]
}

/// The text of the file of a chapter.
pub open spec fn chapter_text(
    c: quest::ChapterModel,
    numbers: Seq<(Seq<char>, import::ReadingModel)>,
) -> Seq<char> {
    layout::block(chapter_lines(c, numbers), 0) + "\n"@
}

fn write_default(
    lines: &mut Vec<(String, String)>,
    extra: &TextMap<Value>,
    key: &str,
    value: &str,
)
    ensures
        layout::lines_of(final(lines)@) == layout::lines_of(old(lines)@) + line_if(
            !table::has_key(snbt::nodes_of(extra@), key@),
            key@,
            value@,
        ),
{
    proof {
        table::lemma_mapped(extra@, |v: Value| v@, key@);
    }
    if !extra.contains_key(key) {
        push_line(lines, key, value.to_owned());
    } else {
        assert(layout::lines_of(lines@) =~= layout::lines_of(lines@) + Seq::empty());
    }
}

/// The text of the file of a chapter.
pub fn chapter_snbt(chapter: &Chapter, numbers: &TextMap<Reading>) -> (r: String)
    ensures
        r@ == chapter_text(chapter@, import::readings_of(*numbers)),
{
    let mut lines: Vec<(String, String)> = Vec::new();
    assert(layout::lines_of(lines@) + extra_lines(chapter@.extra) =~= extra_lines(chapter@.extra));
    write_extra_fields(&mut lines, &chapter.extra);
    write_default(&mut lines, &chapter.extra, "default_hide_dependency_lines", "false");
    write_default(&mut lines, &chapter.extra, "default_quest_shape", "\"\"");
    push_line(&mut lines, "filename", quoted(chapter.filename.as_str()));
    let group = match &chapter.group {
        Some(group) => quoted(group.as_str()),
        None => {
            let none = String::new();
            quoted(none.as_str())
        },
    };
    push_line(&mut lines, "group", group);
    push_line(&mut lines, "id", quoted(chapter.id.as_str()));
    push_line(&mut lines, "order_index", signed_number(chapter.order_index as i64));
    write_default(&mut lines, &chapter.extra, "progression_mode", "\"flexible\"");
    write_default(&mut lines, &chapter.extra, "quest_links", "[ ]");
    let quests = write_quests(&chapter.quests, numbers);
    push_line(&mut lines, "quests", lay_out_rows(&quests, 1));
    push_line(&mut lines, "title", quoted(chapter.title.as_str()));
    let mut r = lay_out_block(&lines, 0);
    r.append("\n");
    r
}

/// The text of a group.
pub open spec fn group_text(g: quest::GroupModel) -> Seq<char> {
    "{ id: "@ + in_quotes(g.id) + ", title: "@ + in_quotes(g.title) + " }"@
}

pub open spec fn group_texts(groups: Seq<quest::GroupModel>) -> Seq<Seq<char>> {
    Seq::new(groups.len(), |i: int| group_text(groups[i]))
}

/// The text of the file of the groups of chapters.
pub open spec fn groups_text(groups: Seq<quest::GroupModel>) -> Seq<char> {
    layout::block(seq![("chapter_groups"@, layout::rows(group_texts(groups), 1))], 0) + "\n"@
}

/// The text of the file of the groups of chapters.
pub fn chapter_groups_snbt(groups: &Vec<ChapterGroup>) -> (r: String)
    ensures
        r@ == groups_text(order::views(groups@)),
{
    let mut parts: Vec<String> = Vec::new();
    let mut i: usize = 0;
    while i < groups.len()
        invariant
            i <= groups@.len(),
            parts@.len() == i,
            forall|j: int| 0 <= j < i ==> (#[trigger] parts@[j])@ == group_text(groups@[j]@),
        decreases groups@.len() - i,
    {
        let mut part = "{ id: ".to_owned();
        part.append(quoted(groups[i].id.as_str()).as_str());
        part.append(", title: ");
        part.append(quoted(groups[i].title.as_str()).as_str());
        part.append(" }");
        parts.push(part);
        i += 1;
    }
    assert(text::texts(parts@) =~= group_texts(order::views(groups@)));
    let mut lines: Vec<(String, String)> = Vec::new();
    push_line(&mut lines, "chapter_groups", lay_out_rows(&parts, 1));
    assert(layout::lines_of(lines@) =~= seq![
        ("chapter_groups"@, layout::rows(group_texts(order::views(groups@)), 1)),
    ]);
    let mut r = lay_out_block(&lines, 0);
    r.append("\n");
    r
}

/// The lines of the file of the book.
pub open spec fn data_lines(title: Seq<char>, grid_scale: quest::NumberModel) -> Seq<
    (Seq<char>, Seq<char>),
> {
    seq![
        ("default_autoclaim_rewards"@, "\"disabled\""@),
        ("default_consume_items"@, "false"@),
        ("default_quest_shape"@, "\"circle\""@),
        ("grid_scale"@, measure(grid_scale)),
        ("progression_mode"@, "\"flexible\""@),
        ("title"@, in_quotes(title)),
        ("version"@, "13"@),
    ]
}

/// The text of the file of the book.
pub open spec fn data_text(title: Seq<char>, grid_scale: quest::NumberModel) -> Seq<char> {
    layout::block(data_lines(title, grid_scale), 0) + "\n"@
}

/// The text of the file of the book.
pub fn data_snbt(title: &str, grid_scale: &Number) -> (r: String)
    ensures
        r@ == data_text(title@, grid_scale@),
{
    let mut lines: Vec<(String, String)> = Vec::new();
    push_line(&mut lines, "default_autoclaim_rewards", "\"disabled\"".to_owned());
    push_line(&mut lines, "default_consume_items", "false".to_owned());
    push_line(&mut lines, "default_quest_shape", "\"circle\"".to_owned());
    push_line(&mut lines, "grid_scale", write_measure(grid_scale));
    push_line(&mut lines, "progression_mode", "\"flexible\"".to_owned());
    push_line(&mut lines, "title", quoted(title));
    push_line(&mut lines, "version", "13".to_owned());
    assert(layout::lines_of(lines@) =~= data_lines(title@, grid_scale@));
    let mut r = lay_out_block(&lines, 0);
    r.append("\n");
    r
}

} // verus!
