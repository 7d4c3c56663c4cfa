//! The values that the lines of quests and chapters are read as.

use crate::compose;
use crate::export;
use crate::layout_laws;
use crate::notation;
use crate::notation_laws;
use crate::quest;
use crate::quest::Tristate;
use crate::table;
use crate::text;
use vstd::prelude::*;

verus! {

// ---------------------------------------------------------------------------
// Fields one behind the other
// ---------------------------------------------------------------------------

/// The value of the last field with a name.
pub open spec fn last_value(fields: Seq<(Seq<char>, notation::Node)>, key: Seq<char>) -> Option<
    notation::Node,
>
    decreases fields.len(),
{
    if fields.len() == 0 {
        None
    } else if fields.last().0 == key {
        Some(fields.last().1)
    } else {
        last_value(fields.drop_last(), key)
    }
}

/// In fields put together the last value of a name is found.
pub proof fn lemma_assembled(fields: Seq<(Seq<char>, notation::Node)>)
    ensures
        table::ordered(layout_laws::assembled(fields)),
        forall|key: Seq<char>| #[trigger]
            table::lookup(layout_laws::assembled(fields), key) == last_value(fields, key),
    decreases fields.len(),
{
    if fields.len() > 0 {
        lemma_assembled(fields.drop_last());
        table::lemma_upsert(
            layout_laws::assembled(fields.drop_last()),
            fields.last().0,
            fields.last().1,
        );
    }
}

/// The last value of a name is that of the later fields, if they have the name.
pub proof fn lemma_last_of_both(
    a: Seq<(Seq<char>, notation::Node)>,
    b: Seq<(Seq<char>, notation::Node)>,
    key: Seq<char>,
)
    ensures
        last_value(a + b, key) == (match last_value(b, key) {
            Some(n) => Some(n),
            None => last_value(a, key),
        }),
    decreases b.len(),
{
    if b.len() == 0 {
        assert(a + b =~= a);
    } else {
        assert((a + b).drop_last() =~= a + b.drop_last());
        assert((a + b).last() == b.last());
        lemma_last_of_both(a, b.drop_last(), key);
    }
}

/// The last value of a name is that of the later fields, if they have the name.
pub proof fn lemma_last_values()
    ensures
        forall|
            a: Seq<(Seq<char>, notation::Node)>,
            b: Seq<(Seq<char>, notation::Node)>,
            key: Seq<char>,
        | #[trigger]
            last_value(a + b, key) == (match last_value(b, key) {
                Some(n) => Some(n),
                None => last_value(a, key),
            }),
        forall|k: Seq<char>, n: notation::Node, key: Seq<char>| #[trigger]
            last_value(seq![(k, n)], key) == (if k == key {
                Some(n)
            } else {
                None
            }),
        forall|condition: bool, k: Seq<char>, n: notation::Node, key: Seq<char>| #[trigger]
            last_value(field_if(condition, k, n), key) == (if condition && k == key {
                Some(n)
            } else {
                None
            }),
        forall|k: Seq<char>, t: Tristate, key: Seq<char>| #[trigger]
            last_value(tristate_field(k, t), key) == (if k == key {
                tristate_value(t)
            } else {
                None
            }),
{
    reveal(tristate_field);
    assert forall|
        a: Seq<(Seq<char>, notation::Node)>,
        b: Seq<(Seq<char>, notation::Node)>,
        key: Seq<char>,
    | #[trigger]
        last_value(a + b, key) == (match last_value(b, key) {
            Some(n) => Some(n),
            None => last_value(a, key),
        }) by {
        lemma_last_of_both(a, b, key);
    }
    assert forall|k: Seq<char>, n: notation::Node, key: Seq<char>| #[trigger]
        last_value(seq![(k, n)], key) == (if k == key {
            Some(n)
        } else {
            None
        }) by {
        assert(seq![(k, n)].drop_last() =~= Seq::empty());
        assert(last_value(seq![(k, n)].drop_last(), key) is None);
    }
}

/// A field that is there only under a condition.
pub open spec fn field_if(condition: bool, key: Seq<char>, n: notation::Node) -> Seq<
    (Seq<char>, notation::Node),
> {
    if condition {
        seq![(key, n)]
    } else {
        Seq::empty()
    }
}

/// The value of a setting that can be left open.
pub open spec fn tristate_value(value: Tristate) -> Option<notation::Node> {
    match value {
        Tristate::Default => None,
        Tristate::True => Some(notation::Node::Scalar("true"@)),
        Tristate::False => Some(notation::Node::Scalar("false"@)),
    }
}

/// The field of a setting that can be left open.
#[verifier::opaque]
pub open spec fn tristate_field(key: Seq<char>, value: Tristate) -> Seq<
    (Seq<char>, notation::Node),
> {
    match value {
        Tristate::Default => Seq::empty(),
        Tristate::True => seq![(key, notation::Node::Scalar("true"@))],
        Tristate::False => seq![(key, notation::Node::Scalar("false"@))],
    }
}

/// Each line is read as the field beside it.
#[verifier::opaque]
pub open spec fn matched(
    lines: Seq<(Seq<char>, Seq<char>)>,
    fields: Seq<(Seq<char>, notation::Node)>,
) -> bool {
    layout_laws::lines_read(lines, fields)
}

proof fn lemma_matched_both(
    a: Seq<(Seq<char>, Seq<char>)>,
    b: Seq<(Seq<char>, Seq<char>)>,
    x: Seq<(Seq<char>, notation::Node)>,
    y: Seq<(Seq<char>, notation::Node)>,
)
    requires
        matched(a, x),
        matched(b, y),
    ensures
        matched(a + b, x + y),
{
    reveal(matched);
    assert forall|i: int| 0 <= i < (a + b).len() implies (#[trigger] (a + b)[i]).0 == (x + y)[i].0
        && layout_laws::is_bare_key((a + b)[i].0) && layout_laws::reads(
        (a + b)[i].1,
        (x + y)[i].1,
    ) by {
        if i < a.len() {
            assert((a + b)[i] == a[i]);
        } else {
            assert((a + b)[i] == b[i - a.len()]);
        }
    }
}

/// Lines that are read as fields stay so one behind the other.
pub proof fn lemma_matched()
    ensures
        forall|
            a: Seq<(Seq<char>, Seq<char>)>,
            b: Seq<(Seq<char>, Seq<char>)>,
            x: Seq<(Seq<char>, notation::Node)>,
            y: Seq<(Seq<char>, notation::Node)>,
        |
            matched(a, x) && matched(b, y) ==> #[trigger] matched(a + b, x + y),
        forall|condition: bool, key: Seq<char>, w: Seq<char>, n: notation::Node|
            (condition ==> layout_laws::is_bare_key(key) && layout_laws::reads(w, n))
                ==> #[trigger] matched(
                export::line_if(condition, key, w),
                field_if(condition, key, n),
            ),
        forall|key: Seq<char>, w: Seq<char>, n: notation::Node|
            layout_laws::is_bare_key(key) && layout_laws::reads(w, n) ==> #[trigger] matched(
                seq![(key, w)],
                seq![(key, n)],
            ),
        forall|key: Seq<char>, value: Tristate|
            layout_laws::is_bare_key(key) ==> #[trigger] matched(
                export::tristate_line(key, value),
                tristate_field(key, value),
            ),
{
    assert forall|
        a: Seq<(Seq<char>, Seq<char>)>,
        b: Seq<(Seq<char>, Seq<char>)>,
        x: Seq<(Seq<char>, notation::Node)>,
        y: Seq<(Seq<char>, notation::Node)>,
    |
        matched(a, x) && matched(b, y) implies #[trigger] matched(a + b, x + y) by {
        lemma_matched_both(a, b, x, y);
    }
    lemma_truth_reads();
    reveal(matched);
    reveal(tristate_field);
}

/// The words for what is so and what is not are read as they stand.
pub proof fn lemma_truth_reads()
    ensures
        layout_laws::reads("true"@, notation::Node::Scalar("true"@)),
        layout_laws::reads("false"@, notation::Node::Scalar("false"@)),
{
    reveal_strlit("true");
    reveal_strlit("false");
    layout_laws::lemma_literal_reads("true"@);
    layout_laws::lemma_literal_reads("false"@);
}

/// A name of small letters and low lines is read as it stands.
pub proof fn lemma_bare_key(key: Seq<char>)
    requires
        key.len() > 0,
        forall|i: int| 0 <= i < key.len() ==> 'a' <= #[trigger] key[i] <= 'z' || key[i] == '_',
    ensures
        layout_laws::is_bare_key(key),
{
    assert('a' <= key[0] <= 'z' || key[0] == '_');
}

// ---------------------------------------------------------------------------
// Numbers
// ---------------------------------------------------------------------------

/// A number as it is written.
pub open spec fn measure_node(n: quest::NumberModel) -> notation::Node {
    notation::Node::Scalar(export::measure(n))
}

pub open spec fn count_node(n: u32) -> notation::Node {
    notation::Node::Scalar(compose::decimal(n as nat))
}

pub open spec fn long_count_node(n: u32) -> notation::Node {
    notation::Node::Scalar(compose::decimal(n as nat) + "L"@)
}

pub proof fn lemma_measure_reads(n: quest::NumberModel)
    requires
        quest::is_plain(n),
    ensures
        layout_laws::reads(export::measure(n), measure_node(n)),
{
    reveal_strlit("d");
    let w = export::measure(n);
    assert forall|i: int| 0 <= i < w.len() implies notation_laws::literal_char(#[trigger] w[i]) by {
        if i < n.text.len() {
            assert(w[i] == n.text[i]);
            assert(notation_laws::literal_char(n.text[i]));
        }
    }
    layout_laws::lemma_literal_reads(w);
}

// ---------------------------------------------------------------------------
// Settings
// ---------------------------------------------------------------------------

pub open spec fn measure_fields(settings: quest::SettingsModel) -> Seq<
    (Seq<char>, notation::Node),
> {
    field_if(settings.subtitle.len() > 0, "subtitle"@, notation::Node::Scalar(settings.subtitle))
        + field_if(settings.tags.len() > 0, "tags"@, layout_laws::scalar_list(settings.tags))
        + field_if(!settings.icon_scale.is_one, "icon_scale"@, measure_node(settings.icon_scale))
        + field_if(
        settings.min_width > 0,
        "min_width"@,
        notation::Node::Scalar(compose::signed_decimal(settings.min_width as int)),
    ) + field_if(
        settings.dependency_requirement != "all_completed"@
            && settings.dependency_requirement.len() > 0,
        "dependency_requirement"@,
        notation::Node::Scalar(settings.dependency_requirement),
    ) + field_if(
        settings.min_required_dependencies > 0,
        "min_required_dependencies"@,
        count_node(settings.min_required_dependencies),
    ) + field_if(
        settings.max_completable_dependents > 0,
        "max_completable_dependents"@,
        count_node(settings.max_completable_dependents),
    )
}

pub open spec fn truth() -> notation::Node {
    notation::Node::Scalar("true"@)
}

pub open spec fn flag_fields(settings: quest::SettingsModel) -> Seq<(Seq<char>, notation::Node)> {
    field_if(settings.hide_dependent_lines, "hide_dependent_lines"@, truth()) + field_if(
        settings.hide_lock_icon,
        "hide_lock_icon"@,
        truth(),
    ) + field_if(settings.invisible, "invisible"@, truth()) + field_if(
        settings.optional,
        "optional"@,
        truth(),
    ) + field_if(settings.ignore_reward_blocking, "ignore_reward_blocking"@, truth())
}

pub open spec fn open_fields(settings: quest::SettingsModel) -> Seq<(Seq<char>, notation::Node)> {
    tristate_field("hide_until_deps_visible"@, settings.hide_until_deps_visible) + tristate_field(
        "hide_until_deps_complete"@,
        settings.hide_until_deps_complete,
    ) + tristate_field("hide_dependency_lines"@, settings.hide_dependency_lines) + tristate_field(
        "hide_details_until_startable"@,
        settings.hide_details_until_startable,
    ) + tristate_field("hide_text_until_complete"@, settings.hide_text_until_complete)
        + tristate_field("can_repeat"@, settings.can_repeat) + tristate_field(
        "require_sequential_tasks"@,
        settings.require_sequential_tasks,
    ) + tristate_field("disable_recipe_mod"@, settings.disable_recipe_mod)
}

pub open spec fn mode_fields(settings: quest::SettingsModel) -> Seq<(Seq<char>, notation::Node)> {
    field_if(
        settings.invisible_until_tasks > 0,
        "invisible_until_tasks"@,
        count_node(settings.invisible_until_tasks),
    ) + field_if(
        settings.repeat_cooldown > 0,
        "repeat_cooldown"@,
        count_node(settings.repeat_cooldown),
    ) + field_if(
        settings.progression_mode != "default"@ && settings.progression_mode.len() > 0,
        "progression_mode"@,
        notation::Node::Scalar(settings.progression_mode),
    )
}

/// The fields that the settings of a quest are read as.
pub open spec fn settings_fields(settings: quest::SettingsModel) -> Seq<
    (Seq<char>, notation::Node),
> {
    measure_fields(settings) + flag_fields(settings) + open_fields(settings) + mode_fields(settings)
}

proof fn lemma_measure_lines_read(settings: quest::SettingsModel)
    requires
        quest::is_plain(settings.icon_scale),
    ensures
        matched(export::measure_lines(settings), measure_fields(settings)),
{
    lemma_matched();
    layout_laws::lemma_in_quotes_reads(settings.subtitle);
    layout_laws::lemma_quoted_list_reads(settings.tags);
    lemma_measure_reads(settings.icon_scale);
    layout_laws::lemma_signed_reads(settings.min_width as int);
    layout_laws::lemma_in_quotes_reads(settings.dependency_requirement);
    layout_laws::lemma_decimal_reads(settings.min_required_dependencies as nat);
    layout_laws::lemma_decimal_reads(settings.max_completable_dependents as nat);
    assert(layout_laws::is_bare_key("subtitle"@) && layout_laws::is_bare_key("tags"@)
        && layout_laws::is_bare_key("icon_scale"@) && layout_laws::is_bare_key("min_width"@)
        && layout_laws::is_bare_key("dependency_requirement"@) && layout_laws::is_bare_key(
        "min_required_dependencies"@,
    ) && layout_laws::is_bare_key("max_completable_dependents"@)) by {
        reveal_strlit("subtitle");
        reveal_strlit("tags");
        reveal_strlit("icon_scale");
        reveal_strlit("min_width");
        reveal_strlit("dependency_requirement");
        reveal_strlit("min_required_dependencies");
        reveal_strlit("max_completable_dependents");
        lemma_bare_key("subtitle"@);
        lemma_bare_key("tags"@);
        lemma_bare_key("icon_scale"@);
        lemma_bare_key("min_width"@);
        lemma_bare_key("dependency_requirement"@);
        lemma_bare_key("min_required_dependencies"@);
        lemma_bare_key("max_completable_dependents"@);
    }
}

proof fn lemma_flag_lines_read(settings: quest::SettingsModel)
    ensures
        matched(export::flag_lines(settings), flag_fields(settings)),
{
    lemma_matched();
    lemma_truth_reads();
    assert(layout_laws::is_bare_key("hide_dependent_lines"@) && layout_laws::is_bare_key(
        "hide_lock_icon"@,
    ) && layout_laws::is_bare_key("invisible"@) && layout_laws::is_bare_key("optional"@)
        && layout_laws::is_bare_key("ignore_reward_blocking"@)) by {
        reveal_strlit("hide_dependent_lines");
        reveal_strlit("hide_lock_icon");
        reveal_strlit("invisible");
        reveal_strlit("optional");
        reveal_strlit("ignore_reward_blocking");
        lemma_bare_key("hide_dependent_lines"@);
        lemma_bare_key("hide_lock_icon"@);
        lemma_bare_key("invisible"@);
        lemma_bare_key("optional"@);
        lemma_bare_key("ignore_reward_blocking"@);
    }
}

proof fn lemma_open_lines_read(settings: quest::SettingsModel)
    ensures
        matched(export::open_lines(settings), open_fields(settings)),
{
    lemma_matched();
    assert(layout_laws::is_bare_key("hide_until_deps_visible"@) && layout_laws::is_bare_key(
        "hide_until_deps_complete"@,
    ) && layout_laws::is_bare_key("hide_dependency_lines"@) && layout_laws::is_bare_key(
        "hide_details_until_startable"@,
    ) && layout_laws::is_bare_key("hide_text_until_complete"@) && layout_laws::is_bare_key(
        "can_repeat"@,
    ) && layout_laws::is_bare_key("require_sequential_tasks"@) && layout_laws::is_bare_key(
        "disable_recipe_mod"@,
    )) by {
        reveal_strlit("hide_until_deps_visible");
        reveal_strlit("hide_until_deps_complete");
        reveal_strlit("hide_dependency_lines");
        reveal_strlit("hide_details_until_startable");
        reveal_strlit("hide_text_until_complete");
        reveal_strlit("can_repeat");
        reveal_strlit("require_sequential_tasks");
        reveal_strlit("disable_recipe_mod");
        lemma_bare_key("hide_until_deps_visible"@);
        lemma_bare_key("hide_until_deps_complete"@);
        lemma_bare_key("hide_dependency_lines"@);
        lemma_bare_key("hide_details_until_startable"@);
        lemma_bare_key("hide_text_until_complete"@);
        lemma_bare_key("can_repeat"@);
        lemma_bare_key("require_sequential_tasks"@);
        lemma_bare_key("disable_recipe_mod"@);
    }
}

proof fn lemma_mode_lines_read(settings: quest::SettingsModel)
    ensures
        matched(export::mode_lines(settings), mode_fields(settings)),
{
    lemma_matched();
    layout_laws::lemma_decimal_reads(settings.invisible_until_tasks as nat);
    layout_laws::lemma_decimal_reads(settings.repeat_cooldown as nat);
    layout_laws::lemma_in_quotes_reads(settings.progression_mode);
    assert(layout_laws::is_bare_key("invisible_until_tasks"@) && layout_laws::is_bare_key(
        "repeat_cooldown"@,
    ) && layout_laws::is_bare_key("progression_mode"@)) by {
        reveal_strlit("invisible_until_tasks");
        reveal_strlit("repeat_cooldown");
        reveal_strlit("progression_mode");
        lemma_bare_key("invisible_until_tasks"@);
        lemma_bare_key("repeat_cooldown"@);
        lemma_bare_key("progression_mode"@);
    }
}

/// The lines of the settings of a quest are read as their fields.
pub proof fn lemma_settings_lines_read(settings: quest::SettingsModel)
    requires
        quest::is_plain(settings.icon_scale),
    ensures
        matched(export::settings_lines(settings), settings_fields(settings)),
{
    lemma_measure_lines_read(settings);
    lemma_flag_lines_read(settings);
    lemma_open_lines_read(settings);
    lemma_mode_lines_read(settings);
    lemma_matched();
}

} // verus!
