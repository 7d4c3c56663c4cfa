//! Quests, chapters and what they are made of.

use crate::compose::copy_texts;
use crate::notation;
use crate::notation_laws;
use crate::order;
use crate::snbt;
use crate::snbt::Value;
use crate::table::TextMap;
use crate::text;
use vstd::prelude::*;

verus! {

// ---------------------------------------------------------------------------
// Numbers
// ---------------------------------------------------------------------------

/// A measure of a quest book: the bits of the floating-point number, its text with at most four
/// decimals, and whether the number is one.
#[derive(Debug, PartialEq, Eq)]
pub struct Number {
    bits: u64,
    text: String,
    is_one: bool,
}

/// The mathematical form of a number.
pub ghost struct NumberModel {
    pub bits: u64,
    pub text: Seq<char>,
    pub is_one: bool,
}

/// The text of a number consists of letters, digits, points and signs.
pub open spec fn is_plain(n: NumberModel) -> bool {
    n.text.len() > 0 && notation_laws::literal_chars(n.text)
}

impl View for Number {
    type V = NumberModel;

    closed spec fn view(&self) -> NumberModel {
        NumberModel { bits: self.bits, text: self.text@, is_one: self.is_one }
    }
}

pub open spec fn zero() -> NumberModel {
    NumberModel { bits: 0, text: "0.0"@, is_one: false }
}

pub open spec fn half() -> NumberModel {
    NumberModel { bits: 0x3fe0_0000_0000_0000, text: "0.5"@, is_one: false }
}

pub open spec fn one() -> NumberModel {
    NumberModel { bits: 0x3ff0_0000_0000_0000, text: "1.0"@, is_one: true }
}

/// The numbers that the library makes have texts of digits and points.
pub proof fn lemma_own_numbers_are_plain()
    ensures
        is_plain(zero()),
        is_plain(half()),
        is_plain(one()),
{
    reveal_strlit("0.0");
    reveal_strlit("0.5");
    reveal_strlit("1.0");
    assert("0.0"@ =~= seq!['0', '.', '0']);
    assert("0.5"@ =~= seq!['0', '.', '5']);
    assert("1.0"@ =~= seq!['1', '.', '0']);
}

impl Clone for Number {
    fn clone(&self) -> (r: Self)
        ensures
            r@ == self@,
    {
        self.copy()
    }
}

impl Number {
    #[verifier::type_invariant]
    spec fn has_plain_text(self) -> bool {
        is_plain(self@)
    }

    /// A number with its bits, its text, and whether it is one; none if the text holds anything
    /// but letters, digits, points and signs.
    pub fn new(bits: u64, text: String, is_one: bool) -> (r: Option<Number>)
        ensures
            match r {
                Some(n) => n@ == (NumberModel { bits, text: text@, is_one }) && is_plain(n@),
                None => !is_plain(NumberModel { bits, text: text@, is_one }),
            },
    {
        let chars = text::chars_of(text.as_str());
        if chars.len() == 0 {
            return None;
        }
        let mut i: usize = 0;
        while i < chars.len()
            invariant
                i <= chars@.len(),
                chars@ == text@,
                forall|k: int| 0 <= k < i ==> notation_laws::literal_char(#[trigger] chars@[k]),
            decreases chars@.len() - i,
        {
            let c = chars[i];
            if !(text::is_ascii_alphanumeric(c) || c == '.' || c == '+' || c == '-') {
                assert(!notation_laws::literal_char(text@[i as int]));
                return None;
            }
            i += 1;
        }
        Some(Number { bits, text, is_one })
    }

    /// The number 0.
    pub fn zero() -> (r: Number)
        ensures
            r@ == zero(),
            is_plain(r@),
    {
        proof {
            lemma_own_numbers_are_plain();
        }
        Number { bits: 0, text: "0.0".to_owned(), is_one: false }
    }

    /// The number 1/2.
    pub fn half() -> (r: Number)
        ensures
            r@ == half(),
            is_plain(r@),
    {
        proof {
            lemma_own_numbers_are_plain();
        }
        Number { bits: 0x3fe0_0000_0000_0000, text: "0.5".to_owned(), is_one: false }
    }

    /// The number 1.
    pub fn one() -> (r: Number)
        ensures
            r@ == one(),
            is_plain(r@),
    {
        proof {
            lemma_own_numbers_are_plain();
        }
        Number { bits: 0x3ff0_0000_0000_0000, text: "1.0".to_owned(), is_one: true }
    }

    /// The bits of the floating-point number.
    pub fn bits(&self) -> (r: u64)
        ensures
            r == self@.bits,
    {
        self.bits
    }

    /// The text of the number.
    pub fn text(&self) -> (r: &str)
        ensures
            r@ == self@.text,
    {
        self.text.as_str()
    }

    /// Whether the number is one.
    pub fn is_one(&self) -> (r: bool)
        ensures
            r == self@.is_one,
    {
        self.is_one
    }

    /// A copy.
    pub fn copy(&self) -> (r: Number)
        ensures
            r@ == self@,
            is_plain(r@),
    {
        proof {
            use_type_invariant(self);
        }
        Number { bits: self.bits, text: self.text.clone(), is_one: self.is_one }
    }
}

// ---------------------------------------------------------------------------
// Settings
// ---------------------------------------------------------------------------

/// A setting that a quest can leave to its chapter.
#[derive(Debug, Clone, Copy, PartialEq, Eq, Default, Structural)]
pub enum Tristate {
    #[default]
    Default,
    True,
    False,
}

/// How a quest shows and behaves.
#[derive(Debug, Clone)]
pub struct QuestSettings {
    pub subtitle: String,
    pub tags: Vec<String>,
    pub icon_scale: Number,
    pub min_width: i32,
    pub dependency_requirement: String,
    pub min_required_dependencies: u32,
    pub max_completable_dependents: u32,
    pub hide_until_deps_visible: Tristate,
    pub hide_until_deps_complete: Tristate,
    pub hide_dependency_lines: Tristate,
    pub hide_dependent_lines: bool,
    pub hide_details_until_startable: Tristate,
    pub hide_text_until_complete: Tristate,
    pub hide_lock_icon: bool,
    pub invisible: bool,
    pub invisible_until_tasks: u32,
    pub optional: bool,
    pub can_repeat: Tristate,
    pub repeat_cooldown: u32,
    pub ignore_reward_blocking: bool,
    pub progression_mode: String,
    pub require_sequential_tasks: Tristate,
    pub disable_recipe_mod: Tristate,
}

/// The mathematical form of the settings of a quest.
#[verifier::ext_equal]
pub ghost struct SettingsModel {
    pub subtitle: Seq<char>,
    pub tags: Seq<Seq<char>>,
    pub icon_scale: NumberModel,
    pub min_width: i32,
    pub dependency_requirement: Seq<char>,
    pub min_required_dependencies: u32,
    pub max_completable_dependents: u32,
    pub hide_until_deps_visible: Tristate,
    pub hide_until_deps_complete: Tristate,
    pub hide_dependency_lines: Tristate,
    pub hide_dependent_lines: bool,
    pub hide_details_until_startable: Tristate,
    pub hide_text_until_complete: Tristate,
    pub hide_lock_icon: bool,
    pub invisible: bool,
    pub invisible_until_tasks: u32,
    pub optional: bool,
    pub can_repeat: Tristate,
    pub repeat_cooldown: u32,
    pub ignore_reward_blocking: bool,
    pub progression_mode: Seq<char>,
    pub require_sequential_tasks: Tristate,
    pub disable_recipe_mod: Tristate,
}

impl View for QuestSettings {
    type V = SettingsModel;

    open spec fn view(&self) -> SettingsModel {
        SettingsModel {
            subtitle: self.subtitle@,
            tags: text::texts(self.tags@),
            icon_scale: self.icon_scale@,
            min_width: self.min_width,
            dependency_requirement: self.dependency_requirement@,
            min_required_dependencies: self.min_required_dependencies,
            max_completable_dependents: self.max_completable_dependents,
            hide_until_deps_visible: self.hide_until_deps_visible,
            hide_until_deps_complete: self.hide_until_deps_complete,
            hide_dependency_lines: self.hide_dependency_lines,
            hide_dependent_lines: self.hide_dependent_lines,
            hide_details_until_startable: self.hide_details_until_startable,
            hide_text_until_complete: self.hide_text_until_complete,
            hide_lock_icon: self.hide_lock_icon,
            invisible: self.invisible,
            invisible_until_tasks: self.invisible_until_tasks,
            optional: self.optional,
            can_repeat: self.can_repeat,
            repeat_cooldown: self.repeat_cooldown,
            ignore_reward_blocking: self.ignore_reward_blocking,
            progression_mode: self.progression_mode@,
            require_sequential_tasks: self.require_sequential_tasks,
            disable_recipe_mod: self.disable_recipe_mod,
        }
    }
}

impl QuestSettings {
    /// A copy.
    pub fn copy(&self) -> (r: QuestSettings)
        ensures
            r@ == self@,
    {
        QuestSettings {
            subtitle: self.subtitle.clone(),
            tags: copy_texts(&self.tags),
            icon_scale: self.icon_scale.copy(),
            min_width: self.min_width,
            dependency_requirement: self.dependency_requirement.clone(),
            min_required_dependencies: self.min_required_dependencies,
            max_completable_dependents: self.max_completable_dependents,
            hide_until_deps_visible: self.hide_until_deps_visible,
            hide_until_deps_complete: self.hide_until_deps_complete,
            hide_dependency_lines: self.hide_dependency_lines,
            hide_dependent_lines: self.hide_dependent_lines,
            hide_details_until_startable: self.hide_details_until_startable,
            hide_text_until_complete: self.hide_text_until_complete,
            hide_lock_icon: self.hide_lock_icon,
            invisible: self.invisible,
            invisible_until_tasks: self.invisible_until_tasks,
            optional: self.optional,
            can_repeat: self.can_repeat,
            repeat_cooldown: self.repeat_cooldown,
            ignore_reward_blocking: self.ignore_reward_blocking,
            progression_mode: self.progression_mode.clone(),
            require_sequential_tasks: self.require_sequential_tasks,
            disable_recipe_mod: self.disable_recipe_mod,
        }
    }
}

/// The settings of a new quest.
pub open spec fn default_settings() -> SettingsModel {
    SettingsModel {
        subtitle: Seq::empty(),
        tags: Seq::empty(),
        icon_scale: one(),
        min_width: 0,
        dependency_requirement: "all_completed"@,
        min_required_dependencies: 0,
        max_completable_dependents: 0,
        hide_until_deps_visible: Tristate::Default,
        hide_until_deps_complete: Tristate::Default,
        hide_dependency_lines: Tristate::Default,
        hide_dependent_lines: false,
        hide_details_until_startable: Tristate::Default,
        hide_text_until_complete: Tristate::Default,
        hide_lock_icon: false,
        invisible: false,
        invisible_until_tasks: 0,
        optional: false,
        can_repeat: Tristate::Default,
        repeat_cooldown: 0,
        ignore_reward_blocking: false,
        progression_mode: "default"@,
        require_sequential_tasks: Tristate::Default,
        disable_recipe_mod: Tristate::Default,
    }
}

impl Default for QuestSettings {
    fn default() -> (r: Self)
        ensures
            r@ == default_settings(),
    {
        let r = QuestSettings {
            subtitle: String::new(),
            tags: Vec::new(),
            icon_scale: Number::one(),
            min_width: 0,
            dependency_requirement: "all_completed".to_owned(),
            min_required_dependencies: 0,
            max_completable_dependents: 0,
            hide_until_deps_visible: Tristate::Default,
            hide_until_deps_complete: Tristate::Default,
            hide_dependency_lines: Tristate::Default,
            hide_dependent_lines: false,
            hide_details_until_startable: Tristate::Default,
            hide_text_until_complete: Tristate::Default,
            hide_lock_icon: false,
            invisible: false,
            invisible_until_tasks: 0,
            optional: false,
            can_repeat: Tristate::Default,
            repeat_cooldown: 0,
            ignore_reward_blocking: false,
            progression_mode: "default".to_owned(),
            require_sequential_tasks: Tristate::Default,
            disable_recipe_mod: Tristate::Default,
        };
        assert(text::texts(r.tags@) =~= Seq::empty());
        r
    }
}

// ---------------------------------------------------------------------------
// Tasks and rewards
// ---------------------------------------------------------------------------

/// The mathematical form of a value that may be missing.
pub open spec fn opt_node(v: Option<Value>) -> Option<notation::Node> {
    match v {
        Some(value) => Some(value@),
        None => None,
    }
}

fn copy_option(v: &Option<Value>) -> (r: Option<Value>)
    ensures
        opt_node(r) == opt_node(*v),
{
    match v {
        Some(value) => Some(value.copy()),
        None => None,
    }
}

/// A copy of a text that may be missing.
pub fn copy_option_text(v: &Option<String>) -> (r: Option<String>)
    ensures
        text::opt_text(r) == text::opt_text(*v),
{
    match v {
        Some(s) => Some(s.clone()),
        None => None,
    }
}

/// What has to be done for a quest. A task that was read keeps the value it was read from.
#[derive(Debug, Clone)]
pub enum Task {
    Checkmark { id: String, title: String, raw: Option<Value> },
    Item { id: String, title: String, item: String, count: u32, raw: Option<Value> },
    Kill { id: String, title: String, entity: String, count: u32, raw: Option<Value> },
    Unsupported { kind: String, raw: Value },
}

/// The mathematical form of a task.
#[verifier::ext_equal]
pub ghost enum TaskModel {
    Checkmark { id: Seq<char>, title: Seq<char>, raw: Option<notation::Node> },
    Item { id: Seq<char>, title: Seq<char>, item: Seq<char>, count: u32, raw: Option<notation::Node> },
    Kill { id: Seq<char>, title: Seq<char>, entity: Seq<char>, count: u32, raw: Option<notation::Node> },
    Unsupported { kind: Seq<char>, raw: notation::Node },
}

impl View for Task {
    type V = TaskModel;

    open spec fn view(&self) -> TaskModel {
        match self {
            Task::Checkmark { id, title, raw } => TaskModel::Checkmark { id: id@, title: title@, raw: opt_node(*raw) },
            Task::Item { id, title, item, count, raw } => TaskModel::Item { id: id@, title: title@, item: item@, count: *count, raw: opt_node(*raw) },
            Task::Kill { id, title, entity, count, raw } => TaskModel::Kill { id: id@, title: title@, entity: entity@, count: *count, raw: opt_node(*raw) },
            Task::Unsupported { kind, raw } => TaskModel::Unsupported { kind: kind@, raw: raw@ },
        }
    }
}

impl Task {
    /// A copy.
    pub fn copy(&self) -> (r: Task)
        ensures
            r@ == self@,
    {
        match self {
            Task::Checkmark { id, title, raw } => Task::Checkmark { id: id.clone(), title: title.clone(), raw: copy_option(raw) },
            Task::Item { id, title, item, count, raw } => Task::Item { id: id.clone(), title: title.clone(), item: item.clone(), count: *count, raw: copy_option(raw) },
            Task::Kill { id, title, entity, count, raw } => Task::Kill { id: id.clone(), title: title.clone(), entity: entity.clone(), count: *count, raw: copy_option(raw) },
            Task::Unsupported { kind, raw } => Task::Unsupported { kind: kind.clone(), raw: raw.copy() },
        }
    }
}

/// What is given for a quest. A reward that was read keeps the value it was read from.
#[derive(Debug, Clone)]
pub enum Reward {
    Xp { id: String, amount: u32, raw: Option<Value> },
    Item { id: String, item: String, count: u32, raw: Option<Value> },
    Unsupported { kind: String, raw: Value },
}

/// The mathematical form of a reward.
#[verifier::ext_equal]
pub ghost enum RewardModel {
    Xp { id: Seq<char>, amount: u32, raw: Option<notation::Node> },
    Item { id: Seq<char>, item: Seq<char>, count: u32, raw: Option<notation::Node> },
    Unsupported { kind: Seq<char>, raw: notation::Node },
}

impl View for Reward {
    type V = RewardModel;

    open spec fn view(&self) -> RewardModel {
        match self {
            Reward::Xp { id, amount, raw } => RewardModel::Xp { id: id@, amount: *amount, raw: opt_node(*raw) },
            Reward::Item { id, item, count, raw } => RewardModel::Item { id: id@, item: item@, count: *count, raw: opt_node(*raw) },
            Reward::Unsupported { kind, raw } => RewardModel::Unsupported { kind: kind@, raw: raw@ },
        }
    }
}

impl Reward {
    /// A copy.
    pub fn copy(&self) -> (r: Reward)
        ensures
            r@ == self@,
    {
        match self {
            Reward::Xp { id, amount, raw } => Reward::Xp { id: id.clone(), amount: *amount, raw: copy_option(raw) },
            Reward::Item { id, item, count, raw } => Reward::Item { id: id.clone(), item: item.clone(), count: *count, raw: copy_option(raw) },
            Reward::Unsupported { kind, raw } => Reward::Unsupported { kind: kind.clone(), raw: raw.copy() },
        }
    }
}

/// A copy of a list of tasks.
pub fn copy_tasks(list: &Vec<Task>) -> (r: Vec<Task>)
    ensures
        order::views(r@) == order::views(list@),
{
    let mut r: Vec<Task> = Vec::new();
    let mut i: usize = 0;
    while i < list.len()
        invariant
            i <= list@.len(),
            r@.len() == i,
            forall|j: int| 0 <= j < i ==> (#[trigger] r@[j])@ == list@[j]@,
        decreases list@.len() - i,
    {
        r.push(list[i].copy());
        i += 1;
    }
    assert(order::views(r@) =~= order::views(list@));
    r
}

/// A copy of a list of rewards.
pub fn copy_rewards(list: &Vec<Reward>) -> (r: Vec<Reward>)
    ensures
        order::views(r@) == order::views(list@),
{
    let mut r: Vec<Reward> = Vec::new();
    let mut i: usize = 0;
    while i < list.len()
        invariant
            i <= list@.len(),
            r@.len() == i,
            forall|j: int| 0 <= j < i ==> (#[trigger] r@[j])@ == list@[j]@,
        decreases list@.len() - i,
    {
        r.push(list[i].copy());
        i += 1;
    }
    assert(order::views(r@) =~= order::views(list@));
    r
}

// ---------------------------------------------------------------------------
// Quests and chapters
// ---------------------------------------------------------------------------

/// A quest: what it is called, where it stands, and what it asks and gives.
#[derive(Debug, Clone)]
pub struct Quest {
    pub id: String,
    pub title: String,
    pub description: String,
    pub description_raw: Option<Value>,
    pub x: Number,
    pub y: Number,
    pub size: Number,
    pub shape: String,
    pub icon: String,
    pub icon_raw: Option<Value>,
    pub dependencies: Vec<String>,
    pub tasks: Vec<Task>,
    pub rewards: Vec<Reward>,
    pub settings: QuestSettings,
    pub extra: TextMap<Value>,
}

/// The mathematical form of a quest.
#[verifier::ext_equal]
pub ghost struct QuestModel {
    pub id: Seq<char>,
    pub title: Seq<char>,
    pub description: Seq<char>,
    pub description_raw: Option<notation::Node>,
    pub x: NumberModel,
    pub y: NumberModel,
    pub size: NumberModel,
    pub shape: Seq<char>,
    pub icon: Seq<char>,
    pub icon_raw: Option<notation::Node>,
    pub dependencies: Seq<Seq<char>>,
    pub tasks: Seq<TaskModel>,
    pub rewards: Seq<RewardModel>,
    pub settings: SettingsModel,
    pub extra: Seq<(Seq<char>, notation::Node)>,
}

/// The numbers of a quest are texts of letters, digits, points and signs.
pub open spec fn has_plain_numbers(q: QuestModel) -> bool {
    is_plain(q.x) && is_plain(q.y) && is_plain(q.size) && is_plain(q.settings.icon_scale)
}

pub open spec fn have_plain_numbers(quests: Seq<QuestModel>) -> bool {
    forall|i: int| 0 <= i < quests.len() ==> has_plain_numbers(#[trigger] quests[i])
}

impl View for Quest {
    type V = QuestModel;

    open spec fn view(&self) -> QuestModel {
        QuestModel {
            id: self.id@,
            title: self.title@,
            description: self.description@,
            description_raw: opt_node(self.description_raw),
            x: self.x@,
            y: self.y@,
            size: self.size@,
            shape: self.shape@,
            icon: self.icon@,
            icon_raw: opt_node(self.icon_raw),
            dependencies: text::texts(self.dependencies@),
            tasks: order::views(self.tasks@),
            rewards: order::views(self.rewards@),
            settings: self.settings@,
            extra: snbt::nodes_of(self.extra@),
        }
    }
}

impl Quest {
    /// A copy.
    pub fn copy(&self) -> (r: Quest)
        ensures
            r@ == self@,
    {
        Quest {
            id: self.id.clone(),
            title: self.title.clone(),
            description: self.description.clone(),
            description_raw: copy_option(&self.description_raw),
            x: self.x.copy(),
            y: self.y.copy(),
            size: self.size.copy(),
            shape: self.shape.clone(),
            icon: self.icon.clone(),
            icon_raw: copy_option(&self.icon_raw),
            dependencies: copy_texts(&self.dependencies),
            tasks: copy_tasks(&self.tasks),
            rewards: copy_rewards(&self.rewards),
            settings: self.settings.copy(),
            extra: self.extra.copy(),
        }
    }
}

/// A copy of a list of quests.
pub fn copy_quests(list: &Vec<Quest>) -> (r: Vec<Quest>)
    ensures
        order::views(r@) == order::views(list@),
{
    let mut r: Vec<Quest> = Vec::new();
    let mut i: usize = 0;
    while i < list.len()
        invariant
            i <= list@.len(),
            r@.len() == i,
            forall|j: int| 0 <= j < i ==> (#[trigger] r@[j])@ == list@[j]@,
        decreases list@.len() - i,
    {
        r.push(list[i].copy());
        i += 1;
    }
    assert(order::views(r@) =~= order::views(list@));
    r
}

/// A chapter and its quests.
#[derive(Debug, Clone)]
pub struct Chapter {
    pub id: String,
    pub filename: String,
    pub title: String,
    pub group: Option<String>,
    pub order_index: i32,
    pub quests: Vec<Quest>,
    pub extra: TextMap<Value>,
}

/// The mathematical form of a chapter.
#[verifier::ext_equal]
pub ghost struct ChapterModel {
    pub id: Seq<char>,
    pub filename: Seq<char>,
    pub title: Seq<char>,
    pub group: Option<Seq<char>>,
    pub order_index: i32,
    pub quests: Seq<QuestModel>,
    pub extra: Seq<(Seq<char>, notation::Node)>,
}

impl View for Chapter {
    type V = ChapterModel;

    open spec fn view(&self) -> ChapterModel {
        ChapterModel {
            id: self.id@,
            filename: self.filename@,
            title: self.title@,
            group: text::opt_text(self.group),
            order_index: self.order_index,
            quests: order::views(self.quests@),
            extra: snbt::nodes_of(self.extra@),
        }
    }
}

impl Chapter {
    /// A copy.
    pub fn copy(&self) -> (r: Chapter)
        ensures
            r@ == self@,
    {
        Chapter {
            id: self.id.clone(),
            filename: self.filename.clone(),
            title: self.title.clone(),
            group: copy_option_text(&self.group),
            order_index: self.order_index,
            quests: copy_quests(&self.quests),
            extra: self.extra.copy(),
        }
    }
}

/// A group of chapters.
#[derive(Debug, Clone)]
pub struct ChapterGroup {
    pub id: String,
    pub title: String,
}

/// The mathematical form of a group.
#[verifier::ext_equal]
pub ghost struct GroupModel {
    pub id: Seq<char>,
    pub title: Seq<char>,
}

impl View for ChapterGroup {
    type V = GroupModel;

    open spec fn view(&self) -> GroupModel {
        GroupModel {
            id: self.id@,
            title: self.title@,
        }
    }
}

impl ChapterGroup {
    /// A copy.
    pub fn copy(&self) -> (r: ChapterGroup)
        ensures
            r@ == self@,
    {
        ChapterGroup {
            id: self.id.clone(),
            title: self.title.clone(),
        }
    }
}

} // verus!
