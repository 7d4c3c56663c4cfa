//! What reading gives back of quests that were written.

use crate::compose;
use crate::digits;
use crate::export;
use crate::import;
use crate::layout;
use crate::layout_laws;
use crate::notation;
use crate::quest;
use crate::quest::Tristate;
use crate::saved_entries;
use crate::saved_fields;
use crate::snbt;
use crate::table;
use crate::text;
use vstd::prelude::*;

verus! {

// ---------------------------------------------------------------------------
// The names of fields
// ---------------------------------------------------------------------------

/// The length of a name, its first letter and the one in its middle: enough to tell the names of
/// the fields of a quest apart, and those of a chapter.
pub open spec fn mark(s: Seq<char>) -> (nat, char, char) {
    (s.len(), s[0], s[s.len() as int / 2])
}

/// The marks of the names of the fields of a quest.
pub proof fn lemma_quest_marks()
    ensures
        mark("id"@) == (2nat, 'i', 'd'),
        mark("title"@) == (5nat, 't', 't'),
        mark("description"@) == (11nat, 'd', 'i'),
        mark("x"@) == (1nat, 'x', 'x'),
        mark("y"@) == (1nat, 'y', 'y'),
        mark("size"@) == (4nat, 's', 'z'),
        mark("shape"@) == (5nat, 's', 'a'),
        mark("icon"@) == (4nat, 'i', 'o'),
        mark("dependencies"@) == (12nat, 'd', 'e'),
        mark("tasks"@) == (5nat, 't', 's'),
        mark("rewards"@) == (7nat, 'r', 'a'),
        mark("subtitle"@) == (8nat, 's', 'i'),
        mark("tags"@) == (4nat, 't', 'g'),
        mark("icon_scale"@) == (10nat, 'i', 's'),
        mark("min_width"@) == (9nat, 'm', 'w'),
        mark("dependency_requirement"@) == (22nat, 'd', 'r'),
        mark("min_required_dependencies"@) == (25nat, 'm', '_'),
        mark("max_completable_dependents"@) == (26nat, 'm', 'l'),
        mark("hide_until_deps_visible"@) == (23nat, 'h', 'd'),
        mark("hide_until_deps_complete"@) == (24nat, 'h', 'e'),
        mark("hide_dependency_lines"@) == (21nat, 'h', 'd'),
        mark("hide_dependent_lines"@) == (20nat, 'h', 'd'),
        mark("hide_details_until_startable"@) == (28nat, 'h', 'n'),
        mark("hide_text_until_complete"@) == (24nat, 'h', 't'),
        mark("hide_lock_icon"@) == (14nat, 'h', 'c'),
        mark("invisible"@) == (9nat, 'i', 's'),
        mark("invisible_until_tasks"@) == (21nat, 'i', 'u'),
        mark("optional"@) == (8nat, 'o', 'o'),
        mark("can_repeat"@) == (10nat, 'c', 'e'),
        mark("repeat_cooldown"@) == (15nat, 'r', 'c'),
        mark("ignore_reward_blocking"@) == (22nat, 'i', 'r'),
        mark("progression_mode"@) == (16nat, 'p', 'i'),
        mark("require_sequential_tasks"@) == (24nat, 'r', 'e'),
        mark("disable_recipe_mod"@) == (18nat, 'd', 'e'),
{
    reveal_strlit("id");
    reveal_strlit("title");
    reveal_strlit("description");
    reveal_strlit("x");
    reveal_strlit("y");
    reveal_strlit("size");
    reveal_strlit("shape");
    reveal_strlit("icon");
    reveal_strlit("dependencies");
    reveal_strlit("tasks");
    reveal_strlit("rewards");
    reveal_strlit("subtitle");
    reveal_strlit("tags");
    reveal_strlit("icon_scale");
    reveal_strlit("min_width");
    reveal_strlit("dependency_requirement");
    reveal_strlit("min_required_dependencies");
    reveal_strlit("max_completable_dependents");
    reveal_strlit("hide_until_deps_visible");
    reveal_strlit("hide_until_deps_complete");
    reveal_strlit("hide_dependency_lines");
    reveal_strlit("hide_dependent_lines");
    reveal_strlit("hide_details_until_startable");
    reveal_strlit("hide_text_until_complete");
    reveal_strlit("hide_lock_icon");
    reveal_strlit("invisible");
    reveal_strlit("invisible_until_tasks");
    reveal_strlit("optional");
    reveal_strlit("can_repeat");
    reveal_strlit("repeat_cooldown");
    reveal_strlit("ignore_reward_blocking");
    reveal_strlit("progression_mode");
    reveal_strlit("require_sequential_tasks");
    reveal_strlit("disable_recipe_mod");
}

/// The marks of the names of the fields of a chapter.
pub proof fn lemma_chapter_marks()
    ensures
        mark("filename"@) == (8nat, 'f', 'n'),
        mark("group"@) == (5nat, 'g', 'o'),
        mark("id"@) == (2nat, 'i', 'd'),
        mark("order_index"@) == (11nat, 'o', '_'),
        mark("quests"@) == (6nat, 'q', 's'),
        mark("title"@) == (5nat, 't', 't'),
        mark("default_hide_dependency_lines"@) == (29nat, 'd', 'e'),
        mark("default_quest_shape"@) == (19nat, 'd', 'u'),
        mark("progression_mode"@) == (16nat, 'p', 'i'),
        mark("quest_links"@) == (11nat, 'q', '_'),
{
    reveal_strlit("filename");
    reveal_strlit("group");
    reveal_strlit("id");
    reveal_strlit("order_index");
    reveal_strlit("quests");
    reveal_strlit("title");
    reveal_strlit("default_hide_dependency_lines");
    reveal_strlit("default_quest_shape");
    reveal_strlit("progression_mode");
    reveal_strlit("quest_links");
}

// ---------------------------------------------------------------------------
// The fields of the settings
// ---------------------------------------------------------------------------

/// The value of a text or a number among the settings.
spec fn measure_value(s: quest::SettingsModel, k: Seq<char>) -> Option<notation::Node> {
    if s.max_completable_dependents > 0 && "max_completable_dependents"@ == k {
        Some(saved_fields::count_node(s.max_completable_dependents))
    } else if s.min_required_dependencies > 0 && "min_required_dependencies"@ == k {
        Some(saved_fields::count_node(s.min_required_dependencies))
    } else if s.dependency_requirement != "all_completed"@ && s.dependency_requirement.len() > 0 && "dependency_requirement"@ == k {
        Some(notation::Node::Scalar(s.dependency_requirement))
    } else if s.min_width > 0 && "min_width"@ == k {
        Some(notation::Node::Scalar(compose::signed_decimal(s.min_width as int)))
    } else if !s.icon_scale.is_one && "icon_scale"@ == k {
        Some(saved_fields::measure_node(s.icon_scale))
    } else if s.tags.len() > 0 && "tags"@ == k {
        Some(layout_laws::scalar_list(s.tags))
    } else if s.subtitle.len() > 0 && "subtitle"@ == k {
        Some(notation::Node::Scalar(s.subtitle))
    } else {
        None
    }
}

proof fn lemma_measure_values(s: quest::SettingsModel)
    ensures
        forall|k: Seq<char>| #[trigger]
            saved_fields::last_value(saved_fields::measure_fields(s), k) == measure_value(s, k),
{
    saved_fields::lemma_last_values();
}

/// The value of a setting that is on or off.
spec fn flag_value(s: quest::SettingsModel, k: Seq<char>) -> Option<notation::Node> {
    if s.ignore_reward_blocking && "ignore_reward_blocking"@ == k {
        Some(saved_fields::truth())
    } else if s.optional && "optional"@ == k {
        Some(saved_fields::truth())
    } else if s.invisible && "invisible"@ == k {
        Some(saved_fields::truth())
    } else if s.hide_lock_icon && "hide_lock_icon"@ == k {
        Some(saved_fields::truth())
    } else if s.hide_dependent_lines && "hide_dependent_lines"@ == k {
        Some(saved_fields::truth())
    } else {
        None
    }
}

proof fn lemma_flag_values(s: quest::SettingsModel)
    ensures
        forall|k: Seq<char>| #[trigger]
            saved_fields::last_value(saved_fields::flag_fields(s), k) == flag_value(s, k),
{
    saved_fields::lemma_last_values();
}

/// The value of a setting that can be left open.
spec fn open_value(s: quest::SettingsModel, k: Seq<char>) -> Option<notation::Node> {
    if s.disable_recipe_mod !is Default && "disable_recipe_mod"@ == k {
        saved_fields::tristate_value(s.disable_recipe_mod)
    } else if s.require_sequential_tasks !is Default && "require_sequential_tasks"@ == k {
        saved_fields::tristate_value(s.require_sequential_tasks)
    } else if s.can_repeat !is Default && "can_repeat"@ == k {
        saved_fields::tristate_value(s.can_repeat)
    } else if s.hide_text_until_complete !is Default && "hide_text_until_complete"@ == k {
        saved_fields::tristate_value(s.hide_text_until_complete)
    } else if s.hide_details_until_startable !is Default && "hide_details_until_startable"@ == k {
        saved_fields::tristate_value(s.hide_details_until_startable)
    } else if s.hide_dependency_lines !is Default && "hide_dependency_lines"@ == k {
        saved_fields::tristate_value(s.hide_dependency_lines)
    } else if s.hide_until_deps_complete !is Default && "hide_until_deps_complete"@ == k {
        saved_fields::tristate_value(s.hide_until_deps_complete)
    } else if s.hide_until_deps_visible !is Default && "hide_until_deps_visible"@ == k {
        saved_fields::tristate_value(s.hide_until_deps_visible)
    } else {
        None
    }
}

proof fn lemma_open_values(s: quest::SettingsModel)
    ensures
        forall|k: Seq<char>| #[trigger]
            saved_fields::last_value(saved_fields::open_fields(s), k) == open_value(s, k),
{
    saved_fields::lemma_last_values();
}

/// The value of a setting that stands last.
spec fn mode_value(s: quest::SettingsModel, k: Seq<char>) -> Option<notation::Node> {
    if s.progression_mode != "default"@ && s.progression_mode.len() > 0 && "progression_mode"@ == k {
        Some(notation::Node::Scalar(s.progression_mode))
    } else if s.repeat_cooldown > 0 && "repeat_cooldown"@ == k {
        Some(saved_fields::count_node(s.repeat_cooldown))
    } else if s.invisible_until_tasks > 0 && "invisible_until_tasks"@ == k {
        Some(saved_fields::count_node(s.invisible_until_tasks))
    } else {
        None
    }
}

proof fn lemma_mode_values(s: quest::SettingsModel)
    ensures
        forall|k: Seq<char>| #[trigger]
            saved_fields::last_value(saved_fields::mode_fields(s), k) == mode_value(s, k),
{
    saved_fields::lemma_last_values();
}

/// The value of a setting.
#[verifier::opaque]
spec fn settings_value(s: quest::SettingsModel, k: Seq<char>) -> Option<notation::Node> {
    match mode_value(s, k) {
        Some(n) => Some(n),
        None => match open_value(s, k) {
            Some(n) => Some(n),
            None => match flag_value(s, k) {
                Some(n) => Some(n),
                None => measure_value(s, k),
            },
        },
    }
}

proof fn lemma_settings_values(s: quest::SettingsModel)
    ensures
        forall|k: Seq<char>| #[trigger]
            saved_fields::last_value(saved_fields::settings_fields(s), k) == settings_value(s, k),
{
    lemma_measure_values(s);
    lemma_flag_values(s);
    lemma_open_values(s);
    lemma_mode_values(s);
    saved_fields::lemma_last_values();
    reveal(settings_value);
}

/// A value that is there only under a condition.
pub open spec fn some_if(condition: bool, n: notation::Node) -> Option<notation::Node> {
    if condition {
        Some(n)
    } else {
        None
    }
}

/// The texts and numbers among the settings are found.
proof fn lemma_measures_found(s: quest::SettingsModel)
    ensures
        settings_value(s, "subtitle"@) == some_if(s.subtitle.len() > 0, notation::Node::Scalar(s.subtitle)),
        settings_value(s, "tags"@) == some_if(s.tags.len() > 0, layout_laws::scalar_list(s.tags)),
        settings_value(s, "icon_scale"@) == some_if(!s.icon_scale.is_one, saved_fields::measure_node(s.icon_scale)),
        settings_value(s, "min_width"@) == some_if(s.min_width > 0, notation::Node::Scalar(compose::signed_decimal(s.min_width as int))),
        settings_value(s, "dependency_requirement"@) == some_if(s.dependency_requirement != "all_completed"@ && s.dependency_requirement.len() > 0, notation::Node::Scalar(s.dependency_requirement)),
        settings_value(s, "min_required_dependencies"@) == some_if(s.min_required_dependencies > 0, saved_fields::count_node(s.min_required_dependencies)),
        settings_value(s, "max_completable_dependents"@) == some_if(s.max_completable_dependents > 0, saved_fields::count_node(s.max_completable_dependents)),
{
    reveal(settings_value);
    lemma_quest_marks();
}

/// The settings that are on or off are found.
proof fn lemma_flags_found(s: quest::SettingsModel)
    ensures
        settings_value(s, "hide_dependent_lines"@) == some_if(s.hide_dependent_lines, saved_fields::truth()),
        settings_value(s, "hide_lock_icon"@) == some_if(s.hide_lock_icon, saved_fields::truth()),
        settings_value(s, "invisible"@) == some_if(s.invisible, saved_fields::truth()),
        settings_value(s, "optional"@) == some_if(s.optional, saved_fields::truth()),
        settings_value(s, "ignore_reward_blocking"@) == some_if(s.ignore_reward_blocking, saved_fields::truth()),
{
    reveal(settings_value);
    lemma_quest_marks();
}

/// The settings that can be left open are found.
proof fn lemma_open_found(s: quest::SettingsModel)
    ensures
        settings_value(s, "hide_until_deps_visible"@) == saved_fields::tristate_value(s.hide_until_deps_visible),
        settings_value(s, "hide_until_deps_complete"@) == saved_fields::tristate_value(s.hide_until_deps_complete),
        settings_value(s, "hide_dependency_lines"@) == saved_fields::tristate_value(s.hide_dependency_lines),
        settings_value(s, "hide_details_until_startable"@) == saved_fields::tristate_value(s.hide_details_until_startable),
        settings_value(s, "hide_text_until_complete"@) == saved_fields::tristate_value(s.hide_text_until_complete),
        settings_value(s, "can_repeat"@) == saved_fields::tristate_value(s.can_repeat),
        settings_value(s, "require_sequential_tasks"@) == saved_fields::tristate_value(s.require_sequential_tasks),
        settings_value(s, "disable_recipe_mod"@) == saved_fields::tristate_value(s.disable_recipe_mod),
{
    reveal(settings_value);
    lemma_quest_marks();
}

/// The settings that stand last are found.
proof fn lemma_modes_found(s: quest::SettingsModel)
    ensures
        settings_value(s, "invisible_until_tasks"@) == some_if(s.invisible_until_tasks > 0, saved_fields::count_node(s.invisible_until_tasks)),
        settings_value(s, "repeat_cooldown"@) == some_if(s.repeat_cooldown > 0, saved_fields::count_node(s.repeat_cooldown)),
        settings_value(s, "progression_mode"@) == some_if(s.progression_mode != "default"@ && s.progression_mode.len() > 0, notation::Node::Scalar(s.progression_mode)),
{
    reveal(settings_value);
    lemma_quest_marks();
}

/// What is no setting is not found among the settings.
proof fn lemma_no_settings(s: quest::SettingsModel)
    ensures
        settings_value(s, "id"@) is None,
        settings_value(s, "title"@) is None,
        settings_value(s, "description"@) is None,
        settings_value(s, "x"@) is None,
        settings_value(s, "y"@) is None,
        settings_value(s, "size"@) is None,
        settings_value(s, "shape"@) is None,
        settings_value(s, "icon"@) is None,
        settings_value(s, "dependencies"@) is None,
        settings_value(s, "tasks"@) is None,
        settings_value(s, "rewards"@) is None,
{
    reveal(settings_value);
    lemma_quest_marks();
}

// ---------------------------------------------------------------------------
// Quests
// ---------------------------------------------------------------------------

/// The value that a written description is read as.
pub open spec fn description_node(
    description: Seq<char>,
    raw: Option<notation::Node>,
) -> notation::Node {
    match raw {
        Some(n) if compose::joined(import::scalars_in(export::items_or_none(n)), "\n"@)
            == description => n,
        _ => layout_laws::scalar_list(seq![description]),
    }
}

/// The value that a written icon is read as.
pub open spec fn icon_node(icon: Seq<char>, raw: Option<notation::Node>) -> notation::Node {
    match raw {
        Some(n) if import::item_of(Some(n)) == Some(icon) => n,
        _ => notation::Node::Scalar(icon),
    }
}

pub open spec fn task_nodes(
    tasks: Seq<quest::TaskModel>,
    numbers: Seq<(Seq<char>, import::ReadingModel)>,
) -> Seq<notation::Node> {
    Seq::new(tasks.len(), |i: int| saved_entries::task_node(tasks[i], numbers))
}

pub open spec fn reward_nodes(
    rewards: Seq<quest::RewardModel>,
    numbers: Seq<(Seq<char>, import::ReadingModel)>,
) -> Seq<notation::Node> {
    Seq::new(rewards.len(), |i: int| saved_entries::reward_node(rewards[i], numbers))
}

/// The fields that a written quest is read as.
pub open spec fn quest_fields(
    q: quest::QuestModel,
    numbers: Seq<(Seq<char>, import::ReadingModel)>,
) -> Seq<(Seq<char>, notation::Node)> {
    q.extra + saved_fields::field_if(
        q.dependencies.len() > 0,
        "dependencies"@,
        layout_laws::scalar_list(q.dependencies),
    ) + saved_fields::field_if(
        q.description.len() > 0,
        "description"@,
        description_node(q.description, q.description_raw),
    ) + saved_fields::field_if(q.icon.len() > 0, "icon"@, icon_node(q.icon, q.icon_raw))
        + saved_fields::settings_fields(q.settings) + seq![
        ("id"@, notation::Node::Scalar(q.id)),
    ] + seq![("rewards"@, notation::Node::List(reward_nodes(q.rewards, numbers)))]
        + saved_fields::field_if(q.shape.len() > 0, "shape"@, notation::Node::Scalar(q.shape))
        + saved_fields::field_if(!q.size.is_one, "size"@, saved_fields::measure_node(q.size))
        + seq![("tasks"@, notation::Node::List(task_nodes(q.tasks, numbers)))] + seq![
        ("title"@, notation::Node::Scalar(q.title)),
    ] + seq![("x"@, saved_fields::measure_node(q.x))] + seq![
        ("y"@, saved_fields::measure_node(q.y)),
    ]
}

/// The value that a written quest is read as.
pub open spec fn quest_node(
    q: quest::QuestModel,
    numbers: Seq<(Seq<char>, import::ReadingModel)>,
) -> notation::Node {
    notation::Node::Compound(layout_laws::assembled(quest_fields(q, numbers)))
}

/// The number that the text of a number is read as.
pub open spec fn number_read(
    numbers: Seq<(Seq<char>, import::ReadingModel)>,
    n: quest::NumberModel,
    default: quest::NumberModel,
) -> quest::NumberModel {
    match import::number_meant(notation::without_marks(export::measure(n)), numbers) {
        Some(found) => found,
        None => default,
    }
}

/// The number that is read where a number is left out if it is one.
pub open spec fn number_read_or_one(
    numbers: Seq<(Seq<char>, import::ReadingModel)>,
    n: quest::NumberModel,
) -> quest::NumberModel {
    if n.is_one {
        quest::one()
    } else {
        number_read(numbers, n, quest::one())
    }
}

/// The settings as they are after they were written and read: the scale of the icon is the one
/// that its text is read as, a width below zero is none, and a rule without a name is the usual
/// one.
pub open spec fn settled_settings(
    s: quest::SettingsModel,
    numbers: Seq<(Seq<char>, import::ReadingModel)>,
) -> quest::SettingsModel {
    quest::SettingsModel {
        icon_scale: number_read_or_one(numbers, s.icon_scale),
        min_width: if s.min_width < 0 {
            0
        } else {
            s.min_width
        },
        dependency_requirement: if s.dependency_requirement.len() == 0 {
            "all_completed"@
        } else {
            s.dependency_requirement
        },
        progression_mode: if s.progression_mode.len() == 0 {
            "default"@
        } else {
            s.progression_mode
        },
        ..s
    }
}

/// The quest as it is after it was written and read: its place and its size are the ones that
/// their texts are read as, and what it keeps the values of is read from the values that were
/// written.
pub open spec fn settled_quest(
    q: quest::QuestModel,
    numbers: Seq<(Seq<char>, import::ReadingModel)>,
) -> quest::QuestModel {
    quest::QuestModel {
        description_raw: some_if(
            q.description.len() > 0,
            description_node(q.description, q.description_raw),
        ),
        icon_raw: some_if(q.icon.len() > 0, icon_node(q.icon, q.icon_raw)),
        x: number_read(numbers, q.x, quest::zero()),
        y: number_read(numbers, q.y, quest::zero()),
        size: number_read_or_one(numbers, q.size),
        settings: settled_settings(q.settings, numbers),
        tasks: Seq::new(
            q.tasks.len(),
            |i: int| saved_entries::settled_task(q.tasks[i], numbers),
        ),
        rewards: Seq::new(
            q.rewards.len(),
            |i: int| saved_entries::settled_reward(q.rewards[i], numbers),
        ),
        ..q
    }
}

/// The text of a number is read as that number.
pub open spec fn reads_number(
    numbers: Seq<(Seq<char>, import::ReadingModel)>,
    n: quest::NumberModel,
) -> bool {
    import::number_meant(notation::without_marks(export::measure(n)), numbers) == Some(n)
}

/// A number that is left out if it is one is read as that number.
pub open spec fn reads_unless_one(
    numbers: Seq<(Seq<char>, import::ReadingModel)>,
    n: quest::NumberModel,
) -> bool {
    if n.is_one {
        n == quest::one()
    } else {
        reads_number(numbers, n)
    }
}

/// Settings that nothing is lost of when they are written: no width below zero, no empty name
/// of a rule, and a scale whose text is read as that scale.
pub open spec fn are_lasting_settings(
    s: quest::SettingsModel,
    numbers: Seq<(Seq<char>, import::ReadingModel)>,
) -> bool {
    &&& s.min_width >= 0
    &&& s.dependency_requirement.len() > 0
    &&& s.progression_mode.len() > 0
    &&& reads_unless_one(numbers, s.icon_scale)
}

/// Fields that are only kept: in order, none of which the owner holds itself, and whose names
/// can stand without quotes.
pub open spec fn are_storable_fields(
    extra: Seq<(Seq<char>, notation::Node)>,
    managed: spec_fn(Seq<char>) -> bool,
) -> bool {
    &&& table::ordered(extra)
    &&& forall|i: int|
        0 <= i < extra.len() ==> layout_laws::is_bare_key((#[trigger] extra[i]).0) && !managed(
            extra[i].0,
        ) && notation::well_formed(extra[i].1)
}

pub open spec fn is_well_formed_or_none(raw: Option<notation::Node>) -> bool {
    raw matches Some(n) ==> notation::well_formed(n)
}

/// A quest that can be written: the names of the fields that it only keeps can stand without
/// quotes, its numbers are texts of digits, points and signs, and the values that it keeps beside
/// its own are such as are read.
pub open spec fn is_storable_quest(q: quest::QuestModel) -> bool {
    &&& are_storable_fields(q.extra, import::managed_by(import::Owner::Quest))
    &&& is_well_formed_or_none(q.description_raw)
    &&& is_well_formed_or_none(q.icon_raw)
    &&& quest::is_plain(q.settings.icon_scale)
    &&& quest::is_plain(q.x)
    &&& quest::is_plain(q.y)
    &&& quest::is_plain(q.size)
    &&& forall|i: int| 0 <= i < q.tasks.len() ==> saved_entries::is_sound_task(#[trigger] q.tasks[i])
    &&& forall|i: int|
        0 <= i < q.rewards.len() ==> saved_entries::is_sound_reward(#[trigger] q.rewards[i])
}

/// A quest that nothing is lost of when it is written: its settings, tasks and rewards are such,
/// and the texts of its place and size are read as those numbers.
pub open spec fn is_lasting_quest(
    q: quest::QuestModel,
    numbers: Seq<(Seq<char>, import::ReadingModel)>,
) -> bool {
    &&& is_storable_quest(q)
    &&& are_lasting_settings(q.settings, numbers)
    &&& reads_number(numbers, q.x)
    &&& reads_number(numbers, q.y)
    &&& reads_unless_one(numbers, q.size)
    &&& forall|i: int|
        0 <= i < q.tasks.len() ==> saved_entries::is_lasting_task(#[trigger] q.tasks[i], numbers)
    &&& forall|i: int|
        0 <= i < q.rewards.len() ==> saved_entries::is_lasting_reward(
            #[trigger] q.rewards[i],
            numbers,
        )
}

// ---------------------------------------------------------------------------
// The text is read as the value
// ---------------------------------------------------------------------------

/// The lines of fields that are only kept are read as those fields.
pub proof fn lemma_extra_lines_read(
    extra: Seq<(Seq<char>, notation::Node)>,
    managed: spec_fn(Seq<char>) -> bool,
)
    requires
        are_storable_fields(extra, managed),
    ensures
        saved_fields::matched(export::extra_lines(extra), extra),
{
    reveal(saved_fields::matched);
    let lines = export::extra_lines(extra);
    assert forall|i: int| 0 <= i < lines.len() implies (#[trigger] lines[i]).0 == extra[i].0
        && layout_laws::is_bare_key(lines[i].0) && layout_laws::reads(lines[i].1, extra[i].1) by {
        assert(layout_laws::is_bare_key(extra[i].0));
        layout_laws::lemma_written_reads(extra[i].1);
    }
}

proof fn lemma_description_reads(description: Seq<char>, raw: Option<notation::Node>)
    requires
        is_well_formed_or_none(raw),
    ensures
        layout_laws::reads(
            export::description_text(description, raw),
            description_node(description, raw),
        ),
        compose::joined(
            import::scalars_in(export::items_or_none(description_node(description, raw))),
            "\n"@,
        ) == description,
{
    let one = seq![description];
    layout_laws::lemma_quoted_list_reads(one);
    assert(export::each_in_quotes(one) =~= seq![export::in_quotes(description)]);
    assert(export::quoted_list(one) =~= "["@ + export::in_quotes(description) + "]"@);
    lemma_scalars_of_list(one);
    if let Some(n) = raw {
        layout_laws::lemma_written_reads(n);
    }
}

proof fn lemma_icon_reads(icon: Seq<char>, raw: Option<notation::Node>)
    requires
        is_well_formed_or_none(raw),
    ensures
        layout_laws::reads(export::icon_text(icon, raw), icon_node(icon, raw)),
        import::item_or_empty(Some(icon_node(icon, raw))) == icon,
{
    layout_laws::lemma_in_quotes_reads(icon);
    if let Some(n) = raw {
        layout_laws::lemma_written_reads(n);
    }
}

/// The texts of a list of texts are these texts.
pub proof fn lemma_scalars_of_list(list: Seq<Seq<char>>)
    ensures
        import::scalars_in(export::items_or_none(layout_laws::scalar_list(list))) == list,
        layout_laws::scalar_list(list) is List,
    decreases list.len(),
{
    let values = export::items_or_none(layout_laws::scalar_list(list));
    if list.len() > 0 {
        lemma_scalars_of_list(list.drop_last());
        assert(values.drop_last() =~= export::items_or_none(
            layout_laws::scalar_list(list.drop_last()),
        ));
        assert(list.drop_last().push(list.last()) =~= list);
    } else {
        assert(import::scalars_in(values) =~= list);
    }
}

/// The names of the fields of a quest are read as they stand.
proof fn lemma_own_names()
    ensures
        layout_laws::is_bare_key("dependencies"@),
        layout_laws::is_bare_key("description"@),
        layout_laws::is_bare_key("icon"@),
        layout_laws::is_bare_key("id"@),
        layout_laws::is_bare_key("rewards"@),
        layout_laws::is_bare_key("shape"@),
        layout_laws::is_bare_key("size"@),
        layout_laws::is_bare_key("tasks"@),
        layout_laws::is_bare_key("title"@),
        layout_laws::is_bare_key("x"@),
        layout_laws::is_bare_key("y"@),
{
    reveal_strlit("dependencies");
    saved_fields::lemma_bare_key("dependencies"@);
    reveal_strlit("description");
    saved_fields::lemma_bare_key("description"@);
    reveal_strlit("icon");
    saved_fields::lemma_bare_key("icon"@);
    reveal_strlit("id");
    saved_fields::lemma_bare_key("id"@);
    reveal_strlit("rewards");
    saved_fields::lemma_bare_key("rewards"@);
    reveal_strlit("shape");
    saved_fields::lemma_bare_key("shape"@);
    reveal_strlit("size");
    saved_fields::lemma_bare_key("size"@);
    reveal_strlit("tasks");
    saved_fields::lemma_bare_key("tasks"@);
    reveal_strlit("title");
    saved_fields::lemma_bare_key("title"@);
    reveal_strlit("x");
    saved_fields::lemma_bare_key("x"@);
    reveal_strlit("y");
    saved_fields::lemma_bare_key("y"@);
}

proof fn lemma_entries_read(
    q: quest::QuestModel,
    numbers: Seq<(Seq<char>, import::ReadingModel)>,
)
    requires
        is_storable_quest(q),
    ensures
        layout_laws::reads(
            layout::rows(export::task_texts(q.tasks, numbers), 3),
            notation::Node::List(task_nodes(q.tasks, numbers)),
        ),
        layout_laws::reads(
            layout::rows(export::reward_texts(q.rewards, numbers), 3),
            notation::Node::List(reward_nodes(q.rewards, numbers)),
        ),
{
    let tasks = export::task_texts(q.tasks, numbers);
    let rewards = export::reward_texts(q.rewards, numbers);
    assert forall|i: int| 0 <= i < tasks.len() implies layout_laws::reads(
        #[trigger] tasks[i],
        task_nodes(q.tasks, numbers)[i],
    ) by {
        saved_entries::lemma_task(q.tasks[i], numbers);
    }
    assert forall|i: int| 0 <= i < rewards.len() implies layout_laws::reads(
        #[trigger] rewards[i],
        reward_nodes(q.rewards, numbers)[i],
    ) by {
        saved_entries::lemma_reward(q.rewards[i], numbers);
    }
    layout_laws::lemma_rows_read(tasks, task_nodes(q.tasks, numbers), 3);
    layout_laws::lemma_rows_read(rewards, reward_nodes(q.rewards, numbers), 3);
}

/// Lines one behind the other, five at a time.
proof fn lemma_matched_five(
    a: Seq<(Seq<char>, Seq<char>)>,
    b: Seq<(Seq<char>, Seq<char>)>,
    c: Seq<(Seq<char>, Seq<char>)>,
    d: Seq<(Seq<char>, Seq<char>)>,
    e: Seq<(Seq<char>, Seq<char>)>,
    v: Seq<(Seq<char>, notation::Node)>,
    w: Seq<(Seq<char>, notation::Node)>,
    x: Seq<(Seq<char>, notation::Node)>,
    y: Seq<(Seq<char>, notation::Node)>,
    z: Seq<(Seq<char>, notation::Node)>,
)
    requires
        saved_fields::matched(a, v),
        saved_fields::matched(b, w),
        saved_fields::matched(c, x),
        saved_fields::matched(d, y),
        saved_fields::matched(e, z),
    ensures
        saved_fields::matched(a + b + c + d + e, v + w + x + y + z),
{
    saved_fields::lemma_matched();
}

proof fn lemma_front_lines(q: quest::QuestModel, numbers: Seq<(Seq<char>, import::ReadingModel)>)
    requires
        is_storable_quest(q),
    ensures
        saved_fields::matched(
            export::line_if(
                q.dependencies.len() > 0,
                "dependencies"@,
                export::quoted_list(q.dependencies),
            ),
            saved_fields::field_if(
                q.dependencies.len() > 0,
                "dependencies"@,
                layout_laws::scalar_list(q.dependencies),
            ),
        ),
        saved_fields::matched(
            export::line_if(
                q.description.len() > 0,
                "description"@,
                export::description_text(q.description, q.description_raw),
            ),
            saved_fields::field_if(
                q.description.len() > 0,
                "description"@,
                description_node(q.description, q.description_raw),
            ),
        ),
        saved_fields::matched(
            export::line_if(q.icon.len() > 0, "icon"@, export::icon_text(q.icon, q.icon_raw)),
            saved_fields::field_if(q.icon.len() > 0, "icon"@, icon_node(q.icon, q.icon_raw)),
        ),
        saved_fields::matched(
            export::settings_lines(q.settings),
            saved_fields::settings_fields(q.settings),
        ),
{
    saved_fields::lemma_settings_lines_read(q.settings);
    layout_laws::lemma_quoted_list_reads(q.dependencies);
    lemma_description_reads(q.description, q.description_raw);
    lemma_icon_reads(q.icon, q.icon_raw);
    lemma_own_names();
    saved_fields::lemma_matched();
}

proof fn lemma_back_lines(q: quest::QuestModel, numbers: Seq<(Seq<char>, import::ReadingModel)>)
    requires
        is_storable_quest(q),
    ensures
        saved_fields::matched(
            seq![("id"@, export::in_quotes(q.id))],
            seq![("id"@, notation::Node::Scalar(q.id))],
        ),
        saved_fields::matched(
            seq![("rewards"@, layout::rows(export::reward_texts(q.rewards, numbers), 3))],
            seq![("rewards"@, notation::Node::List(reward_nodes(q.rewards, numbers)))],
        ),
        saved_fields::matched(
            export::line_if(q.shape.len() > 0, "shape"@, export::in_quotes(q.shape)),
            saved_fields::field_if(q.shape.len() > 0, "shape"@, notation::Node::Scalar(q.shape)),
        ),
        saved_fields::matched(
            export::line_if(!q.size.is_one, "size"@, export::measure(q.size)),
            saved_fields::field_if(!q.size.is_one, "size"@, saved_fields::measure_node(q.size)),
        ),
        saved_fields::matched(
            seq![("tasks"@, layout::rows(export::task_texts(q.tasks, numbers), 3))],
            seq![("tasks"@, notation::Node::List(task_nodes(q.tasks, numbers)))],
        ),
        saved_fields::matched(
            seq![("title"@, export::in_quotes(q.title))],
            seq![("title"@, notation::Node::Scalar(q.title))],
        ),
        saved_fields::matched(
            seq![("x"@, export::measure(q.x))],
            seq![("x"@, saved_fields::measure_node(q.x))],
        ),
        saved_fields::matched(
            seq![("y"@, export::measure(q.y))],
            seq![("y"@, saved_fields::measure_node(q.y))],
        ),
{
    layout_laws::lemma_in_quotes_reads(q.id);
    layout_laws::lemma_in_quotes_reads(q.shape);
    layout_laws::lemma_in_quotes_reads(q.title);
    saved_fields::lemma_measure_reads(q.size);
    saved_fields::lemma_measure_reads(q.x);
    saved_fields::lemma_measure_reads(q.y);
    lemma_entries_read(q, numbers);
    lemma_own_names();
    saved_fields::lemma_matched();
}

/// The text of a quest is read as its value.
pub proof fn lemma_quest_reads(
    q: quest::QuestModel,
    numbers: Seq<(Seq<char>, import::ReadingModel)>,
)
    requires
        is_storable_quest(q),
    ensures
        layout_laws::reads(export::quest_text(q, numbers), quest_node(q, numbers)),
{
    lemma_extra_lines_read(q.extra, import::managed_by(import::Owner::Quest));
    lemma_front_lines(q, numbers);
    lemma_back_lines(q, numbers);
    let extra = export::extra_lines(q.extra);
    let dependencies = export::line_if(
        q.dependencies.len() > 0,
        "dependencies"@,
        export::quoted_list(q.dependencies),
    );
    let dependencies_field = saved_fields::field_if(
        q.dependencies.len() > 0,
        "dependencies"@,
        layout_laws::scalar_list(q.dependencies),
    );
    let description = export::line_if(
        q.description.len() > 0,
        "description"@,
        export::description_text(q.description, q.description_raw),
    );
    let description_field = saved_fields::field_if(
        q.description.len() > 0,
        "description"@,
        description_node(q.description, q.description_raw),
    );
    let icon = export::line_if(q.icon.len() > 0, "icon"@, export::icon_text(q.icon, q.icon_raw));
    let icon_field = saved_fields::field_if(
        q.icon.len() > 0,
        "icon"@,
        icon_node(q.icon, q.icon_raw),
    );
    let settings = export::settings_lines(q.settings);
    let settings_field = saved_fields::settings_fields(q.settings);
    lemma_matched_five(
        extra,
        dependencies,
        description,
        icon,
        settings,
        q.extra,
        dependencies_field,
        description_field,
        icon_field,
        settings_field,
    );
    let front = extra + dependencies + description + icon + settings;
    let front_fields = q.extra + dependencies_field + description_field + icon_field
        + settings_field;
    let id = seq![("id"@, export::in_quotes(q.id))];
    let id_field = seq![("id"@, notation::Node::Scalar(q.id))];
    let rewards = seq![("rewards"@, layout::rows(export::reward_texts(q.rewards, numbers), 3))];
    let rewards_field = seq![
        ("rewards"@, notation::Node::List(reward_nodes(q.rewards, numbers))),
    ];
    let shape = export::line_if(q.shape.len() > 0, "shape"@, export::in_quotes(q.shape));
    let shape_field = saved_fields::field_if(
        q.shape.len() > 0,
        "shape"@,
        notation::Node::Scalar(q.shape),
    );
    let size = export::line_if(!q.size.is_one, "size"@, export::measure(q.size));
    let size_field = saved_fields::field_if(
        !q.size.is_one,
        "size"@,
        saved_fields::measure_node(q.size),
    );
    lemma_matched_five(
        front,
        id,
        rewards,
        shape,
        size,
        front_fields,
        id_field,
        rewards_field,
        shape_field,
        size_field,
    );
    let tasks = seq![("tasks"@, layout::rows(export::task_texts(q.tasks, numbers), 3))];
    let tasks_field = seq![("tasks"@, notation::Node::List(task_nodes(q.tasks, numbers)))];
    let title = seq![("title"@, export::in_quotes(q.title))];
    let title_field = seq![("title"@, notation::Node::Scalar(q.title))];
    let x = seq![("x"@, export::measure(q.x))];
    let x_field = seq![("x"@, saved_fields::measure_node(q.x))];
    let y = seq![("y"@, export::measure(q.y))];
    let y_field = seq![("y"@, saved_fields::measure_node(q.y))];
    lemma_matched_five(
        front + id + rewards + shape + size,
        tasks,
        title,
        x,
        y,
        front_fields + id_field + rewards_field + shape_field + size_field,
        tasks_field,
        title_field,
        x_field,
        y_field,
    );
    assert(saved_fields::matched(export::quest_lines(q, numbers), quest_fields(q, numbers)));
    reveal(saved_fields::matched);
    layout_laws::lemma_block_reads(export::quest_lines(q, numbers), quest_fields(q, numbers), 2);
}

// ---------------------------------------------------------------------------
// The value is read as the quest
// ---------------------------------------------------------------------------

/// The value of a field of a quest that was written.
spec fn quest_value(
    q: quest::QuestModel,
    numbers: Seq<(Seq<char>, import::ReadingModel)>,
    k: Seq<char>,
) -> Option<notation::Node> {
    if "y"@ == k {
        Some(saved_fields::measure_node(q.y))
    } else if "x"@ == k {
        Some(saved_fields::measure_node(q.x))
    } else if "title"@ == k {
        Some(notation::Node::Scalar(q.title))
    } else if "tasks"@ == k {
        Some(notation::Node::List(task_nodes(q.tasks, numbers)))
    } else if !q.size.is_one && "size"@ == k {
        Some(saved_fields::measure_node(q.size))
    } else if q.shape.len() > 0 && "shape"@ == k {
        Some(notation::Node::Scalar(q.shape))
    } else if "rewards"@ == k {
        Some(notation::Node::List(reward_nodes(q.rewards, numbers)))
    } else if "id"@ == k {
        Some(notation::Node::Scalar(q.id))
    } else {
        match settings_value(q.settings, k) {
            Some(n) => Some(n),
            None => if q.icon.len() > 0 && "icon"@ == k {
                Some(icon_node(q.icon, q.icon_raw))
            } else if q.description.len() > 0 && "description"@ == k {
                Some(description_node(q.description, q.description_raw))
            } else if q.dependencies.len() > 0 && "dependencies"@ == k {
                Some(layout_laws::scalar_list(q.dependencies))
            } else {
                saved_fields::last_value(q.extra, k)
            },
        }
    }
}

proof fn lemma_quest_value(
    q: quest::QuestModel,
    numbers: Seq<(Seq<char>, import::ReadingModel)>,
    k: Seq<char>,
)
    ensures
        snbt::field(quest_node(q, numbers), k) == quest_value(q, numbers, k),
{
    saved_fields::lemma_assembled(quest_fields(q, numbers));
    lemma_settings_values(q.settings);
    saved_fields::lemma_last_values();
}

/// Fields that are only kept have none of the names that their owner holds.
pub proof fn lemma_no_value(
    extra: Seq<(Seq<char>, notation::Node)>,
    managed: spec_fn(Seq<char>) -> bool,
    k: Seq<char>,
)
    requires
        forall|i: int| 0 <= i < extra.len() ==> !managed((#[trigger] extra[i]).0),
        managed(k),
    ensures
        saved_fields::last_value(extra, k) is None,
    decreases extra.len(),
{
    if extra.len() > 0 {
        assert(!managed(extra[extra.len() - 1].0));
        assert forall|i: int| 0 <= i < extra.drop_last().len() implies !managed(
            (#[trigger] extra.drop_last()[i]).0,
        ) by {
            assert(extra.drop_last()[i] == extra[i]);
        }
        lemma_no_value(extra.drop_last(), managed, k);
    }
}

/// The fields of settings are found in a value.
#[verifier::opaque]
spec fn shows_settings(n: notation::Node, s: quest::SettingsModel) -> bool {
    &&& snbt::field(n, "subtitle"@) == settings_value(s, "subtitle"@)
    &&& snbt::field(n, "tags"@) == settings_value(s, "tags"@)
    &&& snbt::field(n, "icon_scale"@) == settings_value(s, "icon_scale"@)
    &&& snbt::field(n, "min_width"@) == settings_value(s, "min_width"@)
    &&& snbt::field(n, "dependency_requirement"@) == settings_value(s, "dependency_requirement"@)
    &&& snbt::field(n, "min_required_dependencies"@) == settings_value(s, "min_required_dependencies"@)
    &&& snbt::field(n, "max_completable_dependents"@) == settings_value(s, "max_completable_dependents"@)
    &&& snbt::field(n, "hide_dependent_lines"@) == settings_value(s, "hide_dependent_lines"@)
    &&& snbt::field(n, "hide_lock_icon"@) == settings_value(s, "hide_lock_icon"@)
    &&& snbt::field(n, "invisible"@) == settings_value(s, "invisible"@)
    &&& snbt::field(n, "optional"@) == settings_value(s, "optional"@)
    &&& snbt::field(n, "ignore_reward_blocking"@) == settings_value(s, "ignore_reward_blocking"@)
    &&& snbt::field(n, "hide_until_deps_visible"@) == settings_value(s, "hide_until_deps_visible"@)
    &&& snbt::field(n, "hide_until_deps_complete"@) == settings_value(s, "hide_until_deps_complete"@)
    &&& snbt::field(n, "hide_dependency_lines"@) == settings_value(s, "hide_dependency_lines"@)
    &&& snbt::field(n, "hide_details_until_startable"@) == settings_value(s, "hide_details_until_startable"@)
    &&& snbt::field(n, "hide_text_until_complete"@) == settings_value(s, "hide_text_until_complete"@)
    &&& snbt::field(n, "can_repeat"@) == settings_value(s, "can_repeat"@)
    &&& snbt::field(n, "require_sequential_tasks"@) == settings_value(s, "require_sequential_tasks"@)
    &&& snbt::field(n, "disable_recipe_mod"@) == settings_value(s, "disable_recipe_mod"@)
    &&& snbt::field(n, "invisible_until_tasks"@) == settings_value(s, "invisible_until_tasks"@)
    &&& snbt::field(n, "repeat_cooldown"@) == settings_value(s, "repeat_cooldown"@)
    &&& snbt::field(n, "progression_mode"@) == settings_value(s, "progression_mode"@)
}

/// The fields of the settings are found in the value of a quest.
proof fn lemma_settings_in_quest(
    q: quest::QuestModel,
    numbers: Seq<(Seq<char>, import::ReadingModel)>,
)
    requires
        is_storable_quest(q),
    ensures
        shows_settings(quest_node(q, numbers), q.settings),
{
    reveal(shows_settings);
    lemma_quest_marks();
    let managed = import::managed_by(import::Owner::Quest);
    assert forall|k: Seq<char>| #[trigger] import::is_quest_key(k) implies snbt::field(
        quest_node(q, numbers),
        k,
    ) == quest_value(q, numbers, k) && saved_fields::last_value(q.extra, k) is None by {
        lemma_quest_value(q, numbers, k);
        lemma_no_value(q.extra, managed, k);
    }
    assert(import::is_quest_key("subtitle"@));
    assert(import::is_quest_key("tags"@));
    assert(import::is_quest_key("icon_scale"@));
    assert(import::is_quest_key("min_width"@));
    assert(import::is_quest_key("dependency_requirement"@));
    assert(import::is_quest_key("min_required_dependencies"@));
    assert(import::is_quest_key("max_completable_dependents"@));
    assert(import::is_quest_key("hide_dependent_lines"@));
    assert(import::is_quest_key("hide_lock_icon"@));
    assert(import::is_quest_key("invisible"@));
    assert(import::is_quest_key("optional"@));
    assert(import::is_quest_key("ignore_reward_blocking"@));
    assert(import::is_quest_key("hide_until_deps_visible"@));
    assert(import::is_quest_key("hide_until_deps_complete"@));
    assert(import::is_quest_key("hide_dependency_lines"@));
    assert(import::is_quest_key("hide_details_until_startable"@));
    assert(import::is_quest_key("hide_text_until_complete"@));
    assert(import::is_quest_key("can_repeat"@));
    assert(import::is_quest_key("require_sequential_tasks"@));
    assert(import::is_quest_key("disable_recipe_mod"@));
    assert(import::is_quest_key("invisible_until_tasks"@));
    assert(import::is_quest_key("repeat_cooldown"@));
    assert(import::is_quest_key("progression_mode"@));
}

/// The fields of the settings alone are found in their value.
proof fn lemma_settings_alone(s: quest::SettingsModel)
    ensures
        shows_settings(
            notation::Node::Compound(
                layout_laws::assembled(saved_fields::settings_fields(s)),
            ),
            s,
        ),
{
    reveal(shows_settings);
    saved_fields::lemma_assembled(saved_fields::settings_fields(s));
    lemma_settings_values(s);
}

/// Settings are read from a value in which their fields are found.
proof fn lemma_settings_read(
    n: notation::Node,
    s: quest::SettingsModel,
    numbers: Seq<(Seq<char>, import::ReadingModel)>,
)
    requires
        shows_settings(n, s),
    ensures
        import::settings_of(n, numbers) == settled_settings(s, numbers),
{
    reveal(shows_settings);
    digits::lemma_whole_signed(s.min_width as int);
    digits::lemma_whole_decimal(s.min_required_dependencies as nat);
    digits::lemma_whole_decimal(s.max_completable_dependents as nat);
    digits::lemma_whole_decimal(s.invisible_until_tasks as nat);
    digits::lemma_whole_decimal(s.repeat_cooldown as nat);
    lemma_measures_found(s);
    lemma_flags_found(s);
    lemma_open_found(s);
    lemma_modes_found(s);
    lemma_scalars_of_list(s.tags);
    lemma_truth();
    reveal_strlit("");
    assert(s.subtitle.len() == 0 ==> s.subtitle =~= ""@);
    assert(s.tags.len() == 0 ==> s.tags =~= Seq::empty());
    assert(import::settings_of(n, numbers) =~= settled_settings(s, numbers));
}

/// The words for what is so and what is not say it.
proof fn lemma_truth()
    ensures
        import::means_true("true"@),
        !import::means_true("false"@),
        import::means_false("false"@),
{
    reveal_strlit("true");
    reveal_strlit("false");
    reveal_strlit("1b");
    assert(compose::lowered("true"@) =~= "true"@);
    assert(compose::lowered("false"@) =~= "false"@);
    assert("false"@.len() == 5 && "true"@.len() == 4 && "1b"@.len() == 2);
}

/// The fields that are no settings are found in the value of a quest.
proof fn lemma_fields_in_quest(
    q: quest::QuestModel,
    numbers: Seq<(Seq<char>, import::ReadingModel)>,
)
    requires
        is_storable_quest(q),
    ensures
        ({
            let n = quest_node(q, numbers);
            &&& snbt::field(n, "id"@) == Some(notation::Node::Scalar(q.id))
            &&& snbt::field(n, "title"@) == Some(notation::Node::Scalar(q.title))
            &&& snbt::field(n, "description"@) == some_if(
                q.description.len() > 0,
                description_node(q.description, q.description_raw),
            )
            &&& snbt::field(n, "x"@) == Some(saved_fields::measure_node(q.x))
            &&& snbt::field(n, "y"@) == Some(saved_fields::measure_node(q.y))
            &&& snbt::field(n, "size"@) == some_if(
                !q.size.is_one,
                saved_fields::measure_node(q.size),
            )
            &&& snbt::field(n, "shape"@) == some_if(
                q.shape.len() > 0,
                notation::Node::Scalar(q.shape),
            )
            &&& snbt::field(n, "icon"@) == some_if(q.icon.len() > 0, icon_node(q.icon, q.icon_raw))
            &&& snbt::field(n, "dependencies"@) == some_if(
                q.dependencies.len() > 0,
                layout_laws::scalar_list(q.dependencies),
            )
            &&& snbt::field(n, "tasks"@) == Some(
                notation::Node::List(task_nodes(q.tasks, numbers)),
            )
            &&& snbt::field(n, "rewards"@) == Some(
                notation::Node::List(reward_nodes(q.rewards, numbers)),
            )
        }),
{
    lemma_quest_marks();
    lemma_no_settings(q.settings);
    let managed = import::managed_by(import::Owner::Quest);
    assert forall|k: Seq<char>| #[trigger] import::is_quest_key(k) implies snbt::field(
        quest_node(q, numbers),
        k,
    ) == quest_value(q, numbers, k) && saved_fields::last_value(q.extra, k) is None by {
        lemma_quest_value(q, numbers, k);
        lemma_no_value(q.extra, managed, k);
    }
    assert(import::is_quest_key("id"@));
    assert(import::is_quest_key("title"@));
    assert(import::is_quest_key("description"@));
    assert(import::is_quest_key("x"@));
    assert(import::is_quest_key("y"@));
    assert(import::is_quest_key("size"@));
    assert(import::is_quest_key("shape"@));
    assert(import::is_quest_key("icon"@));
    assert(import::is_quest_key("dependencies"@));
    assert(import::is_quest_key("tasks"@));
    assert(import::is_quest_key("rewards"@));
}

/// The tasks of a quest are read from their values.
proof fn lemma_tasks_read(
    tasks: Seq<quest::TaskModel>,
    numbers: Seq<(Seq<char>, import::ReadingModel)>,
)
    requires
        forall|i: int|
            0 <= i < tasks.len() ==> saved_entries::is_sound_task(#[trigger] tasks[i]),
    ensures
        import::tasks_of(task_nodes(tasks, numbers), numbers) == Seq::new(
            tasks.len(),
            |i: int| saved_entries::settled_task(tasks[i], numbers),
        ),
    decreases tasks.len(),
{
    let nodes = task_nodes(tasks, numbers);
    let all = Seq::new(tasks.len(), |i: int| saved_entries::settled_task(tasks[i], numbers));
    if tasks.len() == 0 {
        assert(import::tasks_of(nodes, numbers) =~= all);
    } else {
        let front = tasks.drop_last();
        assert forall|i: int| 0 <= i < front.len() implies saved_entries::is_sound_task(
            #[trigger] front[i],
        ) by {
            assert(front[i] == tasks[i]);
        }
        lemma_tasks_read(front, numbers);
        assert(nodes.drop_last() =~= task_nodes(front, numbers));
        saved_entries::lemma_task(tasks[tasks.len() - 1], numbers);
        assert(import::tasks_of(nodes, numbers) =~= all);
    }
}

/// The rewards of a quest are read from their values.
proof fn lemma_rewards_read(
    rewards: Seq<quest::RewardModel>,
    numbers: Seq<(Seq<char>, import::ReadingModel)>,
)
    requires
        forall|i: int|
            0 <= i < rewards.len() ==> saved_entries::is_sound_reward(#[trigger] rewards[i]),
    ensures
        import::rewards_of(reward_nodes(rewards, numbers), numbers) == Seq::new(
            rewards.len(),
            |i: int| saved_entries::settled_reward(rewards[i], numbers),
        ),
    decreases rewards.len(),
{
    let nodes = reward_nodes(rewards, numbers);
    let all = Seq::new(rewards.len(), |i: int| saved_entries::settled_reward(rewards[i], numbers));
    if rewards.len() == 0 {
        assert(import::rewards_of(nodes, numbers) =~= all);
    } else {
        let front = rewards.drop_last();
        assert forall|i: int| 0 <= i < front.len() implies saved_entries::is_sound_reward(
            #[trigger] front[i],
        ) by {
            assert(front[i] == rewards[i]);
        }
        lemma_rewards_read(front, numbers);
        assert(nodes.drop_last() =~= reward_nodes(front, numbers));
        saved_entries::lemma_reward(rewards[rewards.len() - 1], numbers);
        assert(import::rewards_of(nodes, numbers) =~= all);
    }
}

// ---------------------------------------------------------------------------
// The fields that are only kept
// ---------------------------------------------------------------------------

proof fn lemma_other_of_both(
    a: Seq<(Seq<char>, notation::Node)>,
    b: Seq<(Seq<char>, notation::Node)>,
    managed: spec_fn(Seq<char>) -> bool,
)
    ensures
        import::other_fields(a + b, managed) == import::other_fields(a, managed)
            + import::other_fields(b, managed),
    decreases b.len(),
{
    if b.len() == 0 {
        assert(a + b =~= a);
        assert(import::other_fields(a, managed) + b =~= import::other_fields(a, managed));
    } else {
        lemma_other_of_both(a, b.drop_last(), managed);
        assert((a + b).drop_last() =~= a + b.drop_last());
        assert((a + b).last() == b.last());
        assert(import::other_fields(a + b, managed) =~= import::other_fields(a, managed)
            + import::other_fields(b, managed));
    }
}

/// Storing a field that the owner holds itself leaves the other fields.
proof fn lemma_other_of_upsert(
    s: Seq<(Seq<char>, notation::Node)>,
    key: Seq<char>,
    n: notation::Node,
    managed: spec_fn(Seq<char>) -> bool,
)
    requires
        table::ordered(s),
        managed(key),
    ensures
        import::other_fields(table::upsert(s, key, n), managed) == import::other_fields(
            s,
            managed,
        ),
{
    let at = table::lemma_place_exists(s, key);
    table::lemma_place_upsert(s, key, n, at);
    let t = table::upsert(s, key, n);
    let one = seq![(key, n)];
    let there = if at < s.len() && s[at].0 == key {
        at + 1
    } else {
        at
    };
    assert(t =~= s.take(at) + one + s.skip(there));
    assert(s =~= s.take(at) + s.subrange(at, there) + s.skip(there));
    assert(one.drop_last() =~= Seq::empty());
    assert(import::other_fields(one.drop_last(), managed) =~= Seq::empty());
    assert(import::other_fields(one, managed) =~= Seq::empty());
    let gone = s.subrange(at, there);
    if there > at {
        assert(gone.drop_last() =~= Seq::empty());
        assert(import::other_fields(gone.drop_last(), managed) =~= Seq::empty());
    }
    assert(import::other_fields(gone, managed) =~= Seq::empty());
    lemma_other_of_both(s.take(at), one, managed);
    lemma_other_of_both(s.take(at) + one, s.skip(there), managed);
    lemma_other_of_both(s.take(at), gone, managed);
    lemma_other_of_both(s.take(at) + gone, s.skip(there), managed);
    assert(import::other_fields(s.take(at), managed) + Seq::empty() =~= import::other_fields(
        s.take(at),
        managed,
    ));
}

/// All names are ones that the owner holds itself.
#[verifier::opaque]
pub open spec fn all_managed(
    fields: Seq<(Seq<char>, notation::Node)>,
    managed: spec_fn(Seq<char>) -> bool,
) -> bool {
    forall|i: int| 0 <= i < fields.len() ==> managed((#[trigger] fields[i]).0)
}

/// Fields that the owner holds itself leave the other fields.
pub proof fn lemma_other_of_assembled(
    a: Seq<(Seq<char>, notation::Node)>,
    b: Seq<(Seq<char>, notation::Node)>,
    managed: spec_fn(Seq<char>) -> bool,
)
    requires
        all_managed(b, managed),
    ensures
        import::other_fields(layout_laws::assembled(a + b), managed) == import::other_fields(
            layout_laws::assembled(a),
            managed,
        ),
    decreases b.len(),
{
    reveal(all_managed);
    if b.len() == 0 {
        assert(a + b =~= a);
    } else {
        let front = b.drop_last();
        assert forall|i: int| 0 <= i < front.len() implies managed((#[trigger] front[i]).0) by {
            assert(front[i] == b[i]);
        }
        lemma_other_of_assembled(a, front, managed);
        assert((a + b).drop_last() =~= a + front);
        assert((a + b).last() == b.last());
        assert(managed(b[b.len() - 1].0));
        saved_fields::lemma_assembled(a + front);
        lemma_other_of_upsert(
            layout_laws::assembled(a + front),
            b.last().0,
            b.last().1,
            managed,
        );
    }
}

/// Ordered fields put together are these fields.
pub proof fn lemma_assembled_ordered(s: Seq<(Seq<char>, notation::Node)>)
    requires
        table::ordered(s),
    ensures
        layout_laws::assembled(s) == s,
    decreases s.len(),
{
    if s.len() > 0 {
        let front = s.drop_last();
        assert forall|i: int, j: int| 0 <= i < j < front.len() implies text::precedes(
            #[trigger] front[i].0,
            #[trigger] front[j].0,
        ) by {
            assert(front[i] == s[i] && front[j] == s[j]);
        }
        lemma_assembled_ordered(front);
        assert forall|j: int| 0 <= j < front.len() implies (#[trigger] front[j]).0 == s[j].0 by {}
        table::lemma_upsert_last(s, front, s.len() - 1);
        assert(front.push(s.last()) =~= s);
        assert(table::upsert(front, s[s.len() - 1].0, s.last().1) == front.push(
            (s[s.len() - 1].0, s.last().1),
        ));
    }
}

/// Fields none of which the owner holds are all other fields.
pub proof fn lemma_all_other(
    s: Seq<(Seq<char>, notation::Node)>,
    managed: spec_fn(Seq<char>) -> bool,
)
    requires
        forall|i: int| 0 <= i < s.len() ==> !managed((#[trigger] s[i]).0),
    ensures
        import::other_fields(s, managed) == s,
    decreases s.len(),
{
    if s.len() > 0 {
        let front = s.drop_last();
        assert forall|i: int| 0 <= i < front.len() implies !managed((#[trigger] front[i]).0) by {
            assert(front[i] == s[i]);
        }
        lemma_all_other(front, managed);
        assert(!managed(s[s.len() - 1].0));
        assert(front.push(s.last()) =~= s);
    }
}

/// Fields that the owner holds itself stay so one behind the other.
pub proof fn lemma_all_managed()
    ensures
        forall|
            a: Seq<(Seq<char>, notation::Node)>,
            b: Seq<(Seq<char>, notation::Node)>,
            managed: spec_fn(Seq<char>) -> bool,
        |
            all_managed(a, managed) && all_managed(b, managed) ==> #[trigger] all_managed(
                a + b,
                managed,
            ),
        forall|
            condition: bool,
            k: Seq<char>,
            n: notation::Node,
            managed: spec_fn(Seq<char>) -> bool,
        |
            managed(k) ==> #[trigger] all_managed(
                saved_fields::field_if(condition, k, n),
                managed,
            ),
        forall|k: Seq<char>, n: notation::Node, managed: spec_fn(Seq<char>) -> bool|
            managed(k) ==> #[trigger] all_managed(seq![(k, n)], managed),
        forall|k: Seq<char>, t: Tristate, managed: spec_fn(Seq<char>) -> bool|
            managed(k) ==> #[trigger] all_managed(saved_fields::tristate_field(k, t), managed),
{
    reveal(all_managed);
    reveal(saved_fields::tristate_field);
    assert forall|
        a: Seq<(Seq<char>, notation::Node)>,
        b: Seq<(Seq<char>, notation::Node)>,
        managed: spec_fn(Seq<char>) -> bool,
    |
        all_managed(a, managed) && all_managed(b, managed) implies #[trigger] all_managed(
        a + b,
        managed,
    ) by {
        assert forall|i: int| 0 <= i < (a + b).len() implies managed((#[trigger] (a + b)[i]).0) by {
            if i < a.len() {
                assert((a + b)[i] == a[i]);
            } else {
                assert((a + b)[i] == b[i - a.len()]);
            }
        }
    }
}

/// The texts and numbers among the settings are fields that a quest itself holds.
proof fn lemma_measures_managed(s: quest::SettingsModel)
    ensures
        all_managed(saved_fields::measure_fields(s), import::managed_by(import::Owner::Quest)),
{
    lemma_all_managed();
}

proof fn lemma_flags_managed(s: quest::SettingsModel)
    ensures
        all_managed(saved_fields::flag_fields(s), import::managed_by(import::Owner::Quest)),
{
    lemma_all_managed();
}

proof fn lemma_open_managed(s: quest::SettingsModel)
    ensures
        all_managed(saved_fields::open_fields(s), import::managed_by(import::Owner::Quest)),
{
    lemma_all_managed();
}

proof fn lemma_modes_managed(s: quest::SettingsModel)
    ensures
        all_managed(saved_fields::mode_fields(s), import::managed_by(import::Owner::Quest)),
{
    lemma_all_managed();
}

proof fn lemma_four_managed(
    a: Seq<(Seq<char>, notation::Node)>,
    b: Seq<(Seq<char>, notation::Node)>,
    c: Seq<(Seq<char>, notation::Node)>,
    d: Seq<(Seq<char>, notation::Node)>,
    managed: spec_fn(Seq<char>) -> bool,
)
    requires
        all_managed(a, managed),
        all_managed(b, managed),
        all_managed(c, managed),
        all_managed(d, managed),
    ensures
        all_managed(a + b + c + d, managed),
{
    lemma_all_managed();
}

/// The settings are fields that a quest itself holds.
proof fn lemma_settings_managed(s: quest::SettingsModel)
    ensures
        all_managed(
            saved_fields::settings_fields(s),
            import::managed_by(import::Owner::Quest),
        ),
{
    lemma_measures_managed(s);
    lemma_flags_managed(s);
    lemma_open_managed(s);
    lemma_modes_managed(s);
    lemma_four_managed(
        saved_fields::measure_fields(s),
        saved_fields::flag_fields(s),
        saved_fields::open_fields(s),
        saved_fields::mode_fields(s),
        import::managed_by(import::Owner::Quest),
    );
}

/// Fields that the owner holds itself, four at a time, leave the other fields.
pub proof fn lemma_other_of_four(
    a: Seq<(Seq<char>, notation::Node)>,
    b: Seq<(Seq<char>, notation::Node)>,
    c: Seq<(Seq<char>, notation::Node)>,
    d: Seq<(Seq<char>, notation::Node)>,
    e: Seq<(Seq<char>, notation::Node)>,
    managed: spec_fn(Seq<char>) -> bool,
)
    requires
        all_managed(b, managed),
        all_managed(c, managed),
        all_managed(d, managed),
        all_managed(e, managed),
    ensures
        import::other_fields(layout_laws::assembled(a + b + c + d + e), managed)
            == import::other_fields(layout_laws::assembled(a), managed),
{
    lemma_other_of_assembled(a, b, managed);
    lemma_other_of_assembled(a + b, c, managed);
    lemma_other_of_assembled(a + b + c, d, managed);
    lemma_other_of_assembled(a + b + c + d, e, managed);
}

/// The fields that a quest only keeps are read from its value.
proof fn lemma_extra_read(q: quest::QuestModel, numbers: Seq<(Seq<char>, import::ReadingModel)>)
    requires
        is_storable_quest(q),
    ensures
        import::extra_of(
            quest_node(q, numbers),
            import::managed_by(import::Owner::Quest),
        ) == q.extra,
{
    let managed = import::managed_by(import::Owner::Quest);
    assert forall|k: Seq<char>| #[trigger] managed(k) == import::is_quest_key(k) by {}
    lemma_settings_managed(q.settings);
    lemma_all_managed();
    let b = saved_fields::field_if(
        q.dependencies.len() > 0,
        "dependencies"@,
        layout_laws::scalar_list(q.dependencies),
    );
    let c = saved_fields::field_if(
        q.description.len() > 0,
        "description"@,
        description_node(q.description, q.description_raw),
    );
    let d = saved_fields::field_if(q.icon.len() > 0, "icon"@, icon_node(q.icon, q.icon_raw));
    let e = saved_fields::settings_fields(q.settings);
    let front = q.extra + b + c + d + e;
    assert(all_managed(b, managed) && all_managed(c, managed) && all_managed(d, managed));
    lemma_other_of_four(q.extra, b, c, d, e, managed);
    let id = seq![("id"@, notation::Node::Scalar(q.id))];
    let rewards = seq![("rewards"@, notation::Node::List(reward_nodes(q.rewards, numbers)))];
    let shape = saved_fields::field_if(
        q.shape.len() > 0,
        "shape"@,
        notation::Node::Scalar(q.shape),
    );
    let size = saved_fields::field_if(
        !q.size.is_one,
        "size"@,
        saved_fields::measure_node(q.size),
    );
    assert(all_managed(id, managed) && all_managed(rewards, managed) && all_managed(shape, managed)
        && all_managed(size, managed));
    lemma_other_of_four(front, id, rewards, shape, size, managed);
    let tasks = seq![("tasks"@, notation::Node::List(task_nodes(q.tasks, numbers)))];
    let title = seq![("title"@, notation::Node::Scalar(q.title))];
    let x = seq![("x"@, saved_fields::measure_node(q.x))];
    let y = seq![("y"@, saved_fields::measure_node(q.y))];
    assert(all_managed(tasks, managed) && all_managed(title, managed) && all_managed(x, managed)
        && all_managed(y, managed));
    lemma_other_of_four(front + id + rewards + shape + size, tasks, title, x, y, managed);
    lemma_assembled_ordered(q.extra);
    lemma_all_other(q.extra, managed);
}

/// The value of a written quest is read as the quest.
pub proof fn lemma_quest_read(
    q: quest::QuestModel,
    numbers: Seq<(Seq<char>, import::ReadingModel)>,
)
    requires
        is_storable_quest(q),
    ensures
        import::quest_of(quest_node(q, numbers), numbers) == Some(settled_quest(q, numbers)),
{
    let n = quest_node(q, numbers);
    lemma_fields_in_quest(q, numbers);
    lemma_settings_in_quest(q, numbers);
    lemma_settings_read(n, q.settings, numbers);
    lemma_tasks_read(q.tasks, numbers);
    lemma_rewards_read(q.rewards, numbers);
    lemma_extra_read(q, numbers);
    lemma_scalars_of_list(q.dependencies);
    lemma_description_reads(q.description, q.description_raw);
    lemma_icon_reads(q.icon, q.icon_raw);
    reveal_strlit("");
    assert(q.dependencies.len() == 0 ==> q.dependencies =~= Seq::empty());
    assert(q.description.len() == 0 ==> q.description =~= Seq::empty());
    assert(q.icon.len() == 0 ==> q.icon =~= Seq::empty());
    assert(q.shape.len() == 0 ==> q.shape =~= ""@);
    assert(import::scalars_at(n, "description"@) == import::scalars_in(
        if q.description.len() > 0 {
            export::items_or_none(description_node(q.description, q.description_raw))
        } else {
            Seq::empty()
        },
    ));
    assert(import::quest_of(n, numbers)->Some_0 =~= settled_quest(q, numbers));
}

/// The texts of the numbers that the library makes are read as those numbers, whatever is read
/// beside.
pub proof fn law_own_numbers_are_read_back(numbers: Seq<(Seq<char>, import::ReadingModel)>)
    ensures
        reads_number(numbers, quest::zero()),
        reads_number(numbers, quest::half()),
        reads_number(numbers, quest::one()),
{
    reveal_strlit("0.0");
    reveal_strlit("0.5");
    reveal_strlit("1.0");
    reveal_strlit("d");
    lemma_unmarked(quest::zero());
    lemma_unmarked(quest::half());
    lemma_unmarked(quest::one());
    assert("0.5"@[2] == '5' && "0.0"@[2] == '0');
    assert("1.0"@[0] == '1' && "0.0"@[0] == '0' && "0.5"@[0] == '0');
}

/// The type mark of a number that ends in a digit is taken off again.
proof fn lemma_unmarked(n: quest::NumberModel)
    requires
        n.text.len() > 0,
        text::ascii_digit(n.text.last()),
    ensures
        notation::without_marks(export::measure(n)) == n.text,
{
    reveal_strlit("d");
    let w = export::measure(n);
    assert(w.last() == 'd');
    assert(w.drop_last() =~= n.text);
    assert(notation::without_marks(n.text) == n.text);
}

/// Reading the settings that were written gives them back, where the width is not below zero, the
/// rules have names, and the scale is one or a half.
pub proof fn law_usual_settings_are_read_back(
    s: quest::SettingsModel,
    numbers: Seq<(Seq<char>, import::ReadingModel)>,
    depth: nat,
)
    requires
        s.min_width >= 0,
        s.dependency_requirement.len() > 0,
        s.progression_mode.len() > 0,
        s.icon_scale == quest::one() || s.icon_scale == quest::half(),
    ensures
        notation::document(layout::block(export::settings_lines(s), depth) + "\n"@) matches Ok(n)
            && import::settings_of(n, numbers) == s,
{
    quest::lemma_own_numbers_are_plain();
    law_own_numbers_are_read_back(numbers);
    law_saved_settings_are_read_back(s, numbers, depth);
}

/// Reading the settings that were written gives them back as they have settled, and as they were
/// where the width is not below zero, the rules have names, and the text of the scale is read as
/// that scale.
pub proof fn law_saved_settings_are_read_back(
    s: quest::SettingsModel,
    numbers: Seq<(Seq<char>, import::ReadingModel)>,
    depth: nat,
)
    requires
        quest::is_plain(s.icon_scale),
    ensures
        notation::document(layout::block(export::settings_lines(s), depth) + "\n"@) matches Ok(n)
            && import::settings_of(n, numbers) == settled_settings(s, numbers),
        are_lasting_settings(s, numbers) ==> settled_settings(s, numbers) == s,
{
    let lines = export::settings_lines(s);
    let fields = saved_fields::settings_fields(s);
    let n = notation::Node::Compound(layout_laws::assembled(fields));
    saved_fields::lemma_settings_lines_read(s);
    reveal(saved_fields::matched);
    layout_laws::lemma_block_reads(lines, fields, depth);
    layout_laws::lemma_reads_document(layout::block(lines, depth), n);
    lemma_settings_alone(s);
    lemma_settings_read(n, s, numbers);
    if are_lasting_settings(s, numbers) {
        assert(settled_settings(s, numbers) =~= s);
    }
}

} // verus!
