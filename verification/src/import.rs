//! Quests and chapters as they are read from values.

use crate::compose;
use crate::digits;
use crate::digits::parse_whole;
use crate::notation;
use crate::order;
use crate::quest;
use crate::quest::{Chapter, ChapterGroup, Number, Quest, QuestSettings, Reward, Task, Tristate};
use crate::snbt;
use crate::snbt::{trim_type_marks, Value};
use crate::table;
use crate::table::TextMap;
use crate::text;
use vstd::prelude::*;

verus! {

// ---------------------------------------------------------------------------
// Numbers
// ---------------------------------------------------------------------------

/// The number that a text means: itself, rounded to an integer where that fits, and rounded to
/// a count where it is not negative. The two are read of texts that are no digits; those of
/// digits speak for themselves.
#[derive(Debug, Clone, PartialEq, Eq)]
pub struct Reading {
    pub number: Number,
    pub rounded: Option<i32>,
    pub count: Option<u32>,
}

/// The mathematical form of a reading.
pub ghost struct ReadingModel {
    pub number: quest::NumberModel,
    pub rounded: Option<i32>,
    pub count: Option<u32>,
}

impl View for Reading {
    type V = ReadingModel;

    open spec fn view(&self) -> ReadingModel {
        ReadingModel { number: self.number@, rounded: self.rounded, count: self.count }
    }
}

/// The readings of texts.
pub open spec fn readings_of(numbers: TextMap<Reading>) -> Seq<(Seq<char>, ReadingModel)> {
    table::mapped(numbers@, |r: Reading| r@)
}

/// The scalars of a value that are numbers, without their type marks.
pub open spec fn numbers_in(n: notation::Node) -> Seq<Seq<char>>
    decreases n, 0int,
{
    match n {
        notation::Node::Compound(entries) => numbers_in_fields(entries),
        notation::Node::List(values) => numbers_in_items(values),
        notation::Node::Scalar(s) => if notation::is_number(notation::without_marks(s)) {
            seq![notation::without_marks(s)]
        } else {
            Seq::empty()
        },
    }
}

pub open spec fn numbers_in_fields(entries: Seq<(Seq<char>, notation::Node)>) -> Seq<Seq<char>>
    decreases entries, entries.len(),
{
    if entries.len() == 0 {
        Seq::empty()
    } else {
        numbers_in_fields(entries.drop_last()) + numbers_in(entries.last().1)
    }
}

pub open spec fn numbers_in_items(values: Seq<notation::Node>) -> Seq<Seq<char>>
    decreases values, values.len(),
{
    if values.len() == 0 {
        Seq::empty()
    } else {
        numbers_in_items(values.drop_last()) + numbers_in(values.last())
    }
}

/// Adds the scalars of a value that are numbers, without their type marks.
pub fn collect_number_texts(value: &Value, found: &mut Vec<String>)
    ensures
        text::texts(final(found)@) == text::texts(old(found)@) + numbers_in(value@),
    decreases value,
{
    proof {
        snbt::lemma_view(*value);
    }
    match value {
        Value::Compound(map) => collect_from_fields(map, found),
        Value::List(list) => collect_from_items(list, found),
        Value::Scalar(s) => {
            let ghost before = text::texts(found@);
            let plain = trim_type_marks(s.as_str());
            if snbt::is_number(plain.as_str()) {
                let ghost t = plain@;
                found.push(plain);
                assert(text::texts(found@) =~= before + seq![t]);
            } else {
                assert(before + Seq::empty() =~= before);
            }
        },
    }
}

fn collect_from_fields(map: &TextMap<Value>, found: &mut Vec<String>)
    ensures
        text::texts(final(found)@) == text::texts(old(found)@) + numbers_in_fields(
            snbt::nodes_of(map@),
        ),
    decreases map,
{
    let ghost before = text::texts(found@);
    let ghost entries = snbt::nodes_of(map@);
    let n: usize = map.len();
    let mut i: usize = 0;
    assert(entries.take(0) =~= Seq::empty());
    assert(before + numbers_in_fields(entries.take(0)) =~= before);
    while i < n
        invariant
            i <= n == map@.len() == entries.len(),
            entries == snbt::nodes_of(map@),
            text::texts(found@) == before + numbers_in_fields(entries.take(i as int)),
        decreases n - i,
    {
        proof {
            table::lemma_value_smaller(*map, i as int);
            assert(entries.take(i + 1).drop_last() =~= entries.take(i as int));
            assert(entries.take(i + 1).last().1 == map@[i as int].1@);
        }
        let ghost so_far = text::texts(found@);
        collect_number_texts(map.value_at(i), found);
        assert(text::texts(found@) =~= before + numbers_in_fields(entries.take(i + 1)));
        i += 1;
    }
    assert(entries.take(i as int) =~= entries);
}

fn collect_from_items(list: &Vec<Value>, found: &mut Vec<String>)
    ensures
        text::texts(final(found)@) == text::texts(old(found)@) + numbers_in_items(
            snbt::nodes_in(list@),
        ),
    decreases list,
{
    let ghost before = text::texts(found@);
    let ghost values = snbt::nodes_in(list@);
    let mut i: usize = 0;
    assert(values.take(0) =~= Seq::empty());
    assert(before + numbers_in_items(values.take(0)) =~= before);
    while i < list.len()
        invariant
            i <= list@.len() == values.len(),
            values == snbt::nodes_in(list@),
            text::texts(found@) == before + numbers_in_items(values.take(i as int)),
        decreases list@.len() - i,
    {
        proof {
            assert(decreases_to!(list => list@));
            assert(values.take(i + 1).drop_last() =~= values.take(i as int));
            assert(values.take(i + 1).last() == list@[i as int]@);
        }
        collect_number_texts(&list[i], found);
        assert(text::texts(found@) =~= before + numbers_in_items(values.take(i + 1)));
        i += 1;
    }
    assert(values.take(i as int) =~= values);
}

// ---------------------------------------------------------------------------
// Fields
// ---------------------------------------------------------------------------

/// The text of a field.
pub open spec fn scalar_at(n: notation::Node, key: Seq<char>) -> Option<Seq<char>> {
    match snbt::field(n, key) {
        Some(notation::Node::Scalar(s)) => Some(s),
        _ => None,
    }
}

/// The items of a field.
pub open spec fn list_at(n: notation::Node, key: Seq<char>) -> Option<Seq<notation::Node>> {
    match snbt::field(n, key) {
        Some(notation::Node::List(values)) => Some(values),
        _ => None,
    }
}

/// The items of a field, or none.
pub open spec fn items_at(n: notation::Node, key: Seq<char>) -> Seq<notation::Node> {
    match list_at(n, key) {
        Some(values) => values,
        None => Seq::empty(),
    }
}

pub open spec fn scalar_or(n: notation::Node, key: Seq<char>, default: Seq<char>) -> Seq<char> {
    match scalar_at(n, key) {
        Some(s) => s,
        None => default,
    }
}

/// The texts among the values.
pub open spec fn scalars_in(values: Seq<notation::Node>) -> Seq<Seq<char>>
    decreases values.len(),
{
    if values.len() == 0 {
        Seq::empty()
    } else {
        match values.last() {
            notation::Node::Scalar(s) => scalars_in(values.drop_last()).push(s),
            _ => scalars_in(values.drop_last()),
        }
    }
}

pub open spec fn scalars_at(n: notation::Node, key: Seq<char>) -> Seq<Seq<char>> {
    scalars_in(items_at(n, key))
}

/// The reading of a field.
pub open spec fn reading_at(
    n: notation::Node,
    key: Seq<char>,
    numbers: Seq<(Seq<char>, ReadingModel)>,
) -> Option<ReadingModel> {
    match scalar_at(n, key) {
        Some(s) => table::lookup(numbers, notation::without_marks(s)),
        None => None,
    }
}

/// The number that a text without type marks means: one of those that the library makes, or else
/// its reading.
pub open spec fn number_meant(s: Seq<char>, numbers: Seq<(Seq<char>, ReadingModel)>) -> Option<
    quest::NumberModel,
> {
    if s == quest::zero().text {
        Some(quest::zero())
    } else if s == quest::half().text {
        Some(quest::half())
    } else if s == quest::one().text {
        Some(quest::one())
    } else {
        match table::lookup(numbers, s) {
            Some(reading) => Some(reading.number),
            None => None,
        }
    }
}

/// The number of a field.
pub open spec fn number_at(
    n: notation::Node,
    key: Seq<char>,
    numbers: Seq<(Seq<char>, ReadingModel)>,
) -> Option<quest::NumberModel> {
    match scalar_at(n, key) {
        Some(s) => number_meant(notation::without_marks(s), numbers),
        None => None,
    }
}

pub open spec fn number_or(
    n: notation::Node,
    key: Seq<char>,
    numbers: Seq<(Seq<char>, ReadingModel)>,
    default: quest::NumberModel,
) -> quest::NumberModel {
    match number_at(n, key, numbers) {
        Some(x) => x,
        None => default,
    }
}

/// A whole number, where it is one of the numbers that an integer can have.
pub open spec fn as_integer(n: int) -> Option<i32> {
    if i32::MIN <= n <= i32::MAX {
        Some(n as i32)
    } else {
        None
    }
}

/// A whole number as a count: none below zero, and none above the largest.
pub open spec fn as_count(n: int) -> Option<u32> {
    if n < 0 {
        None
    } else if n <= u32::MAX {
        Some(n as u32)
    } else {
        Some(u32::MAX)
    }
}

/// The integer that a text without type marks means: that of its digits, or else its reading.
pub open spec fn integer_meant(s: Seq<char>, numbers: Seq<(Seq<char>, ReadingModel)>) -> Option<
    i32,
> {
    match digits::whole_in(s) {
        Some(n) => as_integer(n),
        None => match table::lookup(numbers, s) {
            Some(reading) => reading.rounded,
            None => None,
        },
    }
}

/// The count that a text without type marks means: that of its digits, or else its reading.
pub open spec fn count_meant(s: Seq<char>, numbers: Seq<(Seq<char>, ReadingModel)>) -> Option<
    u32,
> {
    match digits::whole_in(s) {
        Some(n) => as_count(n),
        None => match table::lookup(numbers, s) {
            Some(reading) => reading.count,
            None => None,
        },
    }
}

pub open spec fn integer_at(
    n: notation::Node,
    key: Seq<char>,
    numbers: Seq<(Seq<char>, ReadingModel)>,
) -> Option<i32> {
    match scalar_at(n, key) {
        Some(s) => integer_meant(notation::without_marks(s), numbers),
        None => None,
    }
}

pub open spec fn integer_or(
    n: notation::Node,
    key: Seq<char>,
    numbers: Seq<(Seq<char>, ReadingModel)>,
    default: i32,
) -> i32 {
    match integer_at(n, key, numbers) {
        Some(x) => x,
        None => default,
    }
}

pub open spec fn count_at(
    n: notation::Node,
    key: Seq<char>,
    numbers: Seq<(Seq<char>, ReadingModel)>,
) -> Option<u32> {
    match scalar_at(n, key) {
        Some(s) => count_meant(notation::without_marks(s), numbers),
        None => None,
    }
}

pub open spec fn count_or(
    n: notation::Node,
    key: Seq<char>,
    numbers: Seq<(Seq<char>, ReadingModel)>,
    default: u32,
) -> u32 {
    match count_at(n, key, numbers) {
        Some(x) => x,
        None => default,
    }
}

pub open spec fn means_true(s: Seq<char>) -> bool {
    compose::lowered(s) == "true"@ || s == "1b"@
}

pub open spec fn means_false(s: Seq<char>) -> bool {
    compose::lowered(s) == "false"@ || s == "0b"@
}

pub open spec fn flag_at(n: notation::Node, key: Seq<char>) -> bool {
    match scalar_at(n, key) {
        Some(s) => means_true(s),
        None => false,
    }
}

pub open spec fn tristate_at(n: notation::Node, key: Seq<char>) -> Tristate {
    match scalar_at(n, key) {
        Some(s) => if means_true(s) {
            Tristate::True
        } else if means_false(s) {
            Tristate::False
        } else {
            Tristate::Default
        },
        None => Tristate::Default,
    }
}

/// The text of a field.
pub fn scalar<'a>(value: &'a Value, key: &str) -> (r: Option<&'a str>)
    ensures
        text::opt_str(r) == scalar_at(value@, key@),
{
    match value.get(key) {
        Some(found) => found.as_str(),
        None => None,
    }
}

/// The items of a field.
pub fn list<'a>(value: &'a Value, key: &str) -> (r: Option<&'a Vec<Value>>)
    ensures
        match r {
            Some(values) => list_at(value@, key@) == Some(snbt::nodes_in(values@)),
            None => list_at(value@, key@) is None,
        },
{
    match value.get(key) {
        Some(found) => {
            proof {
                snbt::lemma_view(*found);
            }
            match found {
                Value::List(values) => Some(values),
                _ => None,
            }
        },
        None => None,
    }
}

/// The text of a field, or the default.
pub fn scalar_text(value: &Value, key: &str, default: &str) -> (r: String)
    ensures
        r@ == scalar_or(value@, key@, default@),
{
    match scalar(value, key) {
        Some(s) => s.to_owned(),
        None => default.to_owned(),
    }
}

/// The texts among the values.
pub fn texts_among(values: &Vec<Value>) -> (r: Vec<String>)
    ensures
        text::texts(r@) == scalars_in(snbt::nodes_in(values@)),
{
    let ghost nodes = snbt::nodes_in(values@);
    let mut r: Vec<String> = Vec::new();
    let mut i: usize = 0;
    assert(nodes.take(0) =~= Seq::empty());
    assert(text::texts(r@) =~= Seq::empty());
    while i < values.len()
        invariant
            i <= values@.len(),
            nodes == snbt::nodes_in(values@),
            text::texts(r@) == scalars_in(nodes.take(i as int)),
        decreases values@.len() - i,
    {
        let ghost before = text::texts(r@);
        assert(nodes.take(i + 1).drop_last() =~= nodes.take(i as int));
        assert(nodes.take(i + 1).last() == values@[i as int]@);
        match values[i].as_str() {
            Some(s) => {
                r.push(s.to_owned());
                assert(text::texts(r@) =~= before.push(s@));
            },
            None => {},
        }
        i += 1;
    }
    assert(nodes.take(i as int) =~= nodes);
    r
}

fn scalar_list(value: &Value, key: &str) -> (r: Vec<String>)
    ensures
        text::texts(r@) == scalars_at(value@, key@),
{
    match list(value, key) {
        Some(values) => texts_among(values),
        None => {
            let r: Vec<String> = Vec::new();
            assert(text::texts(r@) =~= Seq::empty());
            r
        },
    }
}

fn reading<'a>(value: &Value, key: &str, numbers: &'a TextMap<Reading>) -> (r: Option<
    &'a Reading,
>)
    ensures
        match r {
            Some(found) => reading_at(value@, key@, readings_of(*numbers)) == Some(found@),
            None => reading_at(value@, key@, readings_of(*numbers)) is None,
        },
{
    match scalar(value, key) {
        Some(s) => {
            let plain = trim_type_marks(s);
            proof {
                table::lemma_mapped(numbers@, |r: Reading| r@, plain@);
            }
            numbers.get(plain.as_str())
        },
        None => None,
    }
}

/// The number of a field.
pub fn number(value: &Value, key: &str, numbers: &TextMap<Reading>) -> (r: Option<Number>)
    ensures
        match r {
            Some(x) => number_at(value@, key@, readings_of(*numbers)) == Some(x@)
                && quest::is_plain(x@),
            None => number_at(value@, key@, readings_of(*numbers)) is None,
        },
{
    match scalar(value, key) {
        Some(s) => {
            let plain = trim_type_marks(s);
            if text::same(plain.as_str(), "0.0") {
                Some(Number::zero())
            } else if text::same(plain.as_str(), "0.5") {
                Some(Number::half())
            } else if text::same(plain.as_str(), "1.0") {
                Some(Number::one())
            } else {
                match reading(value, key, numbers) {
                    Some(found) => Some(found.number.copy()),
                    None => None,
                }
            }
        },
        None => None,
    }
}

/// The whole number that the text of a field is the digits of.
fn whole(value: &Value, key: &str) -> (r: Option<i64>)
    ensures
        match r {
            Some(n) => scalar_at(value@, key@) matches Some(s) && digits::whole_in(
                notation::without_marks(s),
            ) == Some(n as int),
            None => scalar_at(value@, key@) matches Some(s) ==> digits::whole_in(
                notation::without_marks(s),
            ) is None,
        },
{
    match scalar(value, key) {
        Some(s) => parse_whole(trim_type_marks(s).as_str()),
        None => None,
    }
}

/// The number of a field, rounded.
pub fn integer(value: &Value, key: &str, numbers: &TextMap<Reading>) -> (r: Option<i32>)
    ensures
        r == integer_at(value@, key@, readings_of(*numbers)),
{
    match whole(value, key) {
        Some(n) => {
            if i32::MIN as i64 <= n && n <= i32::MAX as i64 {
                Some(n as i32)
            } else {
                None
            }
        },
        None => {
            match reading(value, key, numbers) {
                Some(found) => found.rounded,
                None => None,
            }
        },
    }
}

/// The number of a field as a count.
pub fn unsigned(value: &Value, key: &str, numbers: &TextMap<Reading>) -> (r: Option<u32>)
    ensures
        r == count_at(value@, key@, readings_of(*numbers)),
{
    match whole(value, key) {
        Some(n) => {
            if n < 0 {
                None
            } else if n <= u32::MAX as i64 {
                Some(n as u32)
            } else {
                Some(u32::MAX)
            }
        },
        None => {
            match reading(value, key, numbers) {
                Some(found) => found.count,
                None => None,
            }
        },
    }
}

fn is_true(s: &str) -> (r: bool)
    ensures
        r == means_true(s@),
{
    proof {
        reveal_strlit("true");
        assert(compose::lowered("true"@) =~= "true"@);
    }
    compose::same_ignoring_ascii_case(s, "true") || text::same(s, "1b")
}

fn is_false(s: &str) -> (r: bool)
    ensures
        r == means_false(s@),
{
    proof {
        reveal_strlit("false");
        assert(compose::lowered("false"@) =~= "false"@);
    }
    compose::same_ignoring_ascii_case(s, "false") || text::same(s, "0b")
}

/// Whether a field is set.
pub fn boolean(value: &Value, key: &str) -> (r: bool)
    ensures
        r == flag_at(value@, key@),
{
    match scalar(value, key) {
        Some(s) => is_true(s),
        None => false,
    }
}

/// How a field is set, if it is.
pub fn tristate(value: &Value, key: &str) -> (r: Tristate)
    ensures
        r == tristate_at(value@, key@),
{
    match scalar(value, key) {
        Some(s) => {
            if is_true(s) {
                Tristate::True
            } else if is_false(s) {
                Tristate::False
            } else {
                Tristate::Default
            }
        },
        None => Tristate::Default,
    }
}

// ---------------------------------------------------------------------------
// Tasks and rewards
// ---------------------------------------------------------------------------

/// The id of an item: the text itself, or the id of the compound.
pub open spec fn item_of(n: Option<notation::Node>) -> Option<Seq<char>> {
    match n {
        Some(notation::Node::Scalar(s)) => Some(s),
        Some(other) => scalar_at(other, "id"@),
        None => None,
    }
}

/// The id of an item, or nothing.
pub open spec fn item_or_empty(n: Option<notation::Node>) -> Seq<char> {
    match item_of(n) {
        Some(s) => s,
        None => Seq::empty(),
    }
}

/// How many of its item an entry means: its own count, else that of its item, else one.
pub open spec fn item_count_of(
    n: notation::Node,
    numbers: Seq<(Seq<char>, ReadingModel)>,
) -> u32 {
    match count_at(n, "count"@, numbers) {
        Some(x) => x,
        None => match snbt::field(n, "item"@) {
            Some(item) => count_or(item, "count"@, numbers, 1),
            None => 1,
        },
    }
}

/// The task that a value describes; none if it has no type.
pub open spec fn task_of(
    n: notation::Node,
    numbers: Seq<(Seq<char>, ReadingModel)>,
) -> Option<quest::TaskModel> {
    let id = scalar_or(n, "id"@, "0"@);
    let title = scalar_or(n, "title"@, ""@);
    match scalar_at(n, "type"@) {
        None => None,
        Some(kind) => Some(
            if kind == "checkmark"@ {
                quest::TaskModel::Checkmark { id, title, raw: Some(n) }
            } else if kind == "item"@ {
                quest::TaskModel::Item {
                    id,
                    title,
                    item: item_or_empty(snbt::field(n, "item"@)),
                    count: item_count_of(n, numbers),
                    raw: Some(n),
                }
            } else if kind == "kill"@ {
                quest::TaskModel::Kill {
                    id,
                    title,
                    entity: scalar_or(n, "entity"@, "minecraft:pig"@),
                    count: count_or(n, "value"@, numbers, 1),
                    raw: Some(n),
                }
            } else {
                quest::TaskModel::Unsupported { kind, raw: n }
            },
        ),
    }
}

/// The reward that a value describes; none if it has no type.
pub open spec fn reward_of(
    n: notation::Node,
    numbers: Seq<(Seq<char>, ReadingModel)>,
) -> Option<quest::RewardModel> {
    let id = scalar_or(n, "id"@, "0"@);
    match scalar_at(n, "type"@) {
        None => None,
        Some(kind) => Some(
            if kind == "xp"@ {
                quest::RewardModel::Xp {
                    id,
                    amount: count_or(n, "xp"@, numbers, 1),
                    raw: Some(n),
                }
            } else if kind == "item"@ {
                quest::RewardModel::Item {
                    id,
                    item: item_or_empty(snbt::field(n, "item"@)),
                    count: item_count_of(n, numbers),
                    raw: Some(n),
                }
            } else {
                quest::RewardModel::Unsupported { kind, raw: n }
            },
        ),
    }
}

/// The tasks that values describe.
pub open spec fn tasks_of(
    values: Seq<notation::Node>,
    numbers: Seq<(Seq<char>, ReadingModel)>,
) -> Seq<quest::TaskModel>
    decreases values.len(),
{
    if values.len() == 0 {
        Seq::empty()
    } else {
        match task_of(values.last(), numbers) {
            Some(task) => tasks_of(values.drop_last(), numbers).push(task),
            None => tasks_of(values.drop_last(), numbers),
        }
    }
}

/// The rewards that values describe.
pub open spec fn rewards_of(
    values: Seq<notation::Node>,
    numbers: Seq<(Seq<char>, ReadingModel)>,
) -> Seq<quest::RewardModel>
    decreases values.len(),
{
    if values.len() == 0 {
        Seq::empty()
    } else {
        match reward_of(values.last(), numbers) {
            Some(reward) => rewards_of(values.drop_last(), numbers).push(reward),
            None => rewards_of(values.drop_last(), numbers),
        }
    }
}

/// The number of tasks that are only kept.
pub open spec fn kept_tasks(tasks: Seq<quest::TaskModel>) -> nat
    decreases tasks.len(),
{
    if tasks.len() == 0 {
        0
    } else {
        kept_tasks(tasks.drop_last()) + (if tasks.last() is Unsupported {
            1nat
        } else {
            0
        })
    }
}

/// The number of rewards that are only kept.
pub open spec fn kept_rewards(rewards: Seq<quest::RewardModel>) -> nat
    decreases rewards.len(),
{
    if rewards.len() == 0 {
        0
    } else {
        kept_rewards(rewards.drop_last()) + (if rewards.last() is Unsupported {
            1nat
        } else {
            0
        })
    }
}

/// A number, or the largest that can be counted.
pub open spec fn capped(n: nat) -> usize {
    if n <= usize::MAX {
        n as usize
    } else {
        usize::MAX
    }
}

/// What was found in the files that are read.
#[derive(Debug, Clone, Default)]
pub struct ImportReport {
    pub preserved_tasks: usize,
    pub preserved_rewards: usize,
    pub imported_languages: usize,
}

impl ImportReport {
    /// The number of entries that are only kept.
    pub fn preserved_total(&self) -> (r: usize)
        ensures
            r == capped((self.preserved_tasks + self.preserved_rewards) as nat),
    {
        self.preserved_tasks.saturating_add(self.preserved_rewards)
    }
}

/// The id of an item: the text itself, or the id of the compound.
pub fn item_id(value: Option<&Value>) -> (r: Option<String>)
    ensures
        text::opt_text(r) == item_of(
            match value {
                Some(v) => Some(v@),
                None => None,
            },
        ),
{
    match value {
        Some(v) => {
            match v.as_str() {
                Some(s) => Some(s.to_owned()),
                None => {
                    match scalar(v, "id") {
                        Some(s) => Some(s.to_owned()),
                        None => None,
                    }
                },
            }
        },
        None => None,
    }
}

/// The id of the item of an entry, or nothing.
pub fn entry_item(value: &Value) -> (r: String)
    ensures
        r@ == item_or_empty(snbt::field(value@, "item"@)),
{
    match item_id(value.get("item")) {
        Some(s) => s,
        None => String::new(),
    }
}

/// How many of its item an entry means.
pub fn entry_item_count(value: &Value, numbers: &TextMap<Reading>) -> (r: u32)
    ensures
        r == item_count_of(value@, readings_of(*numbers)),
{
    match unsigned(value, "count", numbers) {
        Some(x) => x,
        None => {
            match value.get("item") {
                Some(item) => {
                    match unsigned(item, "count", numbers) {
                        Some(x) => x,
                        None => 1,
                    }
                },
                None => 1,
            }
        },
    }
}

/// The task that a value describes; none if it has no type.
pub fn import_task(value: &Value, numbers: &TextMap<Reading>) -> (r: Option<Task>)
    ensures
        match r {
            Some(task) => task_of(value@, readings_of(*numbers)) == Some(task@),
            None => task_of(value@, readings_of(*numbers)) is None,
        },
{
    let kind = match scalar(value, "type") {
        Some(kind) => kind,
        None => {
            return None;
        },
    };
    let id = scalar_text(value, "id", "0");
    let title = scalar_text(value, "title", "");
    let raw = Some(value.copy());
    Some(
        if text::same(kind, "checkmark") {
            Task::Checkmark { id, title, raw }
        } else if text::same(kind, "item") {
            Task::Item {
                id,
                title,
                item: entry_item(value),
                count: entry_item_count(value, numbers),
                raw,
            }
        } else if text::same(kind, "kill") {
            Task::Kill {
                id,
                title,
                entity: scalar_text(value, "entity", "minecraft:pig"),
                count: match unsigned(value, "value", numbers) {
                    Some(x) => x,
                    None => 1,
                },
                raw,
            }
        } else {
            Task::Unsupported { kind: kind.to_owned(), raw: value.copy() }
        },
    )
}

/// The reward that a value describes; none if it has no type.
pub fn import_reward(value: &Value, numbers: &TextMap<Reading>) -> (r: Option<Reward>)
    ensures
        match r {
            Some(reward) => reward_of(value@, readings_of(*numbers)) == Some(reward@),
            None => reward_of(value@, readings_of(*numbers)) is None,
        },
{
    let kind = match scalar(value, "type") {
        Some(kind) => kind,
        None => {
            return None;
        },
    };
    let id = scalar_text(value, "id", "0");
    let raw = Some(value.copy());
    Some(
        if text::same(kind, "xp") {
            Reward::Xp {
                id,
                amount: match unsigned(value, "xp", numbers) {
                    Some(x) => x,
                    None => 1,
                },
                raw,
            }
        } else if text::same(kind, "item") {
            Reward::Item {
                id,
                item: entry_item(value),
                count: entry_item_count(value, numbers),
                raw,
            }
        } else {
            Reward::Unsupported { kind: kind.to_owned(), raw: value.copy() }
        },
    )
}

fn import_tasks(value: &Value, numbers: &TextMap<Reading>, report: &mut ImportReport) -> (r: Vec<
    Task,
>)
    ensures
        order::views(r@) == tasks_of(items_at(value@, "tasks"@), readings_of(*numbers)),
        final(report).preserved_tasks == capped(
            old(report).preserved_tasks as nat + kept_tasks(order::views(r@)),
        ),
        final(report).preserved_rewards == old(report).preserved_rewards,
        final(report).imported_languages == old(report).imported_languages,
{
    let mut r: Vec<Task> = Vec::new();
    assert(order::views(r@) =~= Seq::empty());
    let values = match list(value, "tasks") {
        Some(values) => values,
        None => {
            return r;
        },
    };
    let ghost nodes = snbt::nodes_in(values@);
    let ghost table = readings_of(*numbers);
    let ghost first = report.preserved_tasks;
    let mut i: usize = 0;
    assert(nodes.take(0) =~= Seq::empty());
    while i < values.len()
        invariant
            i <= values@.len(),
            nodes == snbt::nodes_in(values@),
            table == readings_of(*numbers),
            order::views(r@) == tasks_of(nodes.take(i as int), table),
            report.preserved_tasks == capped(first as nat + kept_tasks(order::views(r@))),
            report.preserved_rewards == old(report).preserved_rewards,
            report.imported_languages == old(report).imported_languages,
        decreases values@.len() - i,
    {
        let ghost before = order::views(r@);
        assert(nodes.take(i + 1).drop_last() =~= nodes.take(i as int));
        assert(nodes.take(i + 1).last() == values@[i as int]@);
        match import_task(&values[i], numbers) {
            Some(task) => {
                let kept = match &task {
                    Task::Unsupported { .. } => true,
                    _ => false,
                };
                let ghost model = task@;
                r.push(task);
                assert(order::views(r@) =~= before.push(model));
                assert(before.push(model).drop_last() =~= before);
                if kept {
                    report.preserved_tasks = report.preserved_tasks.saturating_add(1);
                }
            },
            None => {},
        }
        i += 1;
    }
    assert(nodes.take(i as int) =~= nodes);
    r
}

fn import_rewards(value: &Value, numbers: &TextMap<Reading>, report: &mut ImportReport) -> (r: Vec<
    Reward,
>)
    ensures
        order::views(r@) == rewards_of(items_at(value@, "rewards"@), readings_of(*numbers)),
        final(report).preserved_rewards == capped(
            old(report).preserved_rewards as nat + kept_rewards(order::views(r@)),
        ),
        final(report).preserved_tasks == old(report).preserved_tasks,
        final(report).imported_languages == old(report).imported_languages,
{
    let mut r: Vec<Reward> = Vec::new();
    assert(order::views(r@) =~= Seq::empty());
    let values = match list(value, "rewards") {
        Some(values) => values,
        None => {
            return r;
        },
    };
    let ghost nodes = snbt::nodes_in(values@);
    let ghost table = readings_of(*numbers);
    let ghost first = report.preserved_rewards;
    let mut i: usize = 0;
    assert(nodes.take(0) =~= Seq::empty());
    while i < values.len()
        invariant
            i <= values@.len(),
            nodes == snbt::nodes_in(values@),
            table == readings_of(*numbers),
            order::views(r@) == rewards_of(nodes.take(i as int), table),
            report.preserved_rewards == capped(first as nat + kept_rewards(order::views(r@))),
            report.preserved_tasks == old(report).preserved_tasks,
            report.imported_languages == old(report).imported_languages,
        decreases values@.len() - i,
    {
        let ghost before = order::views(r@);
        assert(nodes.take(i + 1).drop_last() =~= nodes.take(i as int));
        assert(nodes.take(i + 1).last() == values@[i as int]@);
        match import_reward(&values[i], numbers) {
            Some(reward) => {
                let kept = match &reward {
                    Reward::Unsupported { .. } => true,
                    _ => false,
                };
                let ghost model = reward@;
                r.push(reward);
                assert(order::views(r@) =~= before.push(model));
                assert(before.push(model).drop_last() =~= before);
                if kept {
                    report.preserved_rewards = report.preserved_rewards.saturating_add(1);
                }
            },
            None => {},
        }
        i += 1;
    }
    assert(nodes.take(i as int) =~= nodes);
    r
}

// ---------------------------------------------------------------------------
// Quests
// ---------------------------------------------------------------------------

/// The settings that a value describes.
pub open spec fn settings_of(
    value: notation::Node,
    numbers: Seq<(Seq<char>, ReadingModel)>,
) -> quest::SettingsModel {
    quest::SettingsModel {
        subtitle: scalar_or(value, "subtitle"@, ""@),
        tags: scalars_at(value, "tags"@),
        icon_scale: number_or(value, "icon_scale"@, numbers, quest::one()),
        min_width: integer_or(value, "min_width"@, numbers, 0),
        dependency_requirement: scalar_or(value, "dependency_requirement"@, "all_completed"@),
        min_required_dependencies: count_or(value, "min_required_dependencies"@, numbers, 0),
        max_completable_dependents: count_or(value, "max_completable_dependents"@, numbers, 0),
        hide_until_deps_visible: tristate_at(value, "hide_until_deps_visible"@),
        hide_until_deps_complete: tristate_at(value, "hide_until_deps_complete"@),
        hide_dependency_lines: tristate_at(value, "hide_dependency_lines"@),
        hide_dependent_lines: flag_at(value, "hide_dependent_lines"@),
        hide_details_until_startable: tristate_at(value, "hide_details_until_startable"@),
        hide_text_until_complete: tristate_at(value, "hide_text_until_complete"@),
        hide_lock_icon: flag_at(value, "hide_lock_icon"@),
        invisible: flag_at(value, "invisible"@),
        invisible_until_tasks: count_or(value, "invisible_until_tasks"@, numbers, 0),
        optional: flag_at(value, "optional"@),
        can_repeat: tristate_at(value, "can_repeat"@),
        repeat_cooldown: count_or(value, "repeat_cooldown"@, numbers, 0),
        ignore_reward_blocking: flag_at(value, "ignore_reward_blocking"@),
        progression_mode: scalar_or(value, "progression_mode"@, "default"@),
        require_sequential_tasks: tristate_at(value, "require_sequential_tasks"@),
        disable_recipe_mod: tristate_at(value, "disable_recipe_mod"@),
    }
}

/// The settings that a value describes.
pub fn import_quest_settings(value: &Value, numbers: &TextMap<Reading>) -> (r: QuestSettings)
    ensures
        r@ == settings_of(value@, readings_of(*numbers)),
        quest::is_plain(r@.icon_scale),
{
    QuestSettings {
        subtitle: scalar_text(value, "subtitle", ""),
        tags: scalar_list(value, "tags"),
        icon_scale: match number(value, "icon_scale", numbers) { Some(x) => x, None => Number::one() },
        min_width: match integer(value, "min_width", numbers) { Some(x) => x, None => 0 },
        dependency_requirement: scalar_text(value, "dependency_requirement", "all_completed"),
        min_required_dependencies: match unsigned(value, "min_required_dependencies", numbers) { Some(x) => x, None => 0 },
        max_completable_dependents: match unsigned(value, "max_completable_dependents", numbers) { Some(x) => x, None => 0 },
        hide_until_deps_visible: tristate(value, "hide_until_deps_visible"),
        hide_until_deps_complete: tristate(value, "hide_until_deps_complete"),
        hide_dependency_lines: tristate(value, "hide_dependency_lines"),
        hide_dependent_lines: boolean(value, "hide_dependent_lines"),
        hide_details_until_startable: tristate(value, "hide_details_until_startable"),
        hide_text_until_complete: tristate(value, "hide_text_until_complete"),
        hide_lock_icon: boolean(value, "hide_lock_icon"),
        invisible: boolean(value, "invisible"),
        invisible_until_tasks: match unsigned(value, "invisible_until_tasks", numbers) { Some(x) => x, None => 0 },
        optional: boolean(value, "optional"),
        can_repeat: tristate(value, "can_repeat"),
        repeat_cooldown: match unsigned(value, "repeat_cooldown", numbers) { Some(x) => x, None => 0 },
        ignore_reward_blocking: boolean(value, "ignore_reward_blocking"),
        progression_mode: scalar_text(value, "progression_mode", "default"),
        require_sequential_tasks: tristate(value, "require_sequential_tasks"),
        disable_recipe_mod: tristate(value, "disable_recipe_mod"),
    }
}

/// A field of a quest that the quest itself holds.
pub open spec fn is_quest_key(key: Seq<char>) -> bool {
    ||| key == "id"@
    ||| key == "title"@
    ||| key == "description"@
    ||| key == "x"@
    ||| key == "y"@
    ||| key == "size"@
    ||| key == "shape"@
    ||| key == "icon"@
    ||| key == "dependencies"@
    ||| key == "tasks"@
    ||| key == "rewards"@
    ||| key == "subtitle"@
    ||| key == "tags"@
    ||| key == "icon_scale"@
    ||| key == "min_width"@
    ||| key == "dependency_requirement"@
    ||| key == "min_required_dependencies"@
    ||| key == "max_completable_dependents"@
    ||| key == "hide_until_deps_visible"@
    ||| key == "hide_until_deps_complete"@
    ||| key == "hide_dependency_lines"@
    ||| key == "hide_dependent_lines"@
    ||| key == "hide_details_until_startable"@
    ||| key == "hide_text_until_complete"@
    ||| key == "hide_lock_icon"@
    ||| key == "invisible"@
    ||| key == "invisible_until_tasks"@
    ||| key == "optional"@
    ||| key == "can_repeat"@
    ||| key == "repeat_cooldown"@
    ||| key == "ignore_reward_blocking"@
    ||| key == "progression_mode"@
    ||| key == "require_sequential_tasks"@
    ||| key == "disable_recipe_mod"@
}

/// A field of a chapter that the chapter itself holds.
pub open spec fn is_chapter_key(key: Seq<char>) -> bool {
    ||| key == "filename"@
    ||| key == "group"@
    ||| key == "id"@
    ||| key == "order_index"@
    ||| key == "quests"@
    ||| key == "title"@
}

/// The fields whose names do not pass the test.
pub open spec fn other_fields(
    entries: Seq<(Seq<char>, notation::Node)>,
    managed: spec_fn(Seq<char>) -> bool,
) -> Seq<(Seq<char>, notation::Node)>
    decreases entries.len(),
{
    if entries.len() == 0 {
        entries
    } else if managed(entries.last().0) {
        other_fields(entries.drop_last(), managed)
    } else {
        other_fields(entries.drop_last(), managed).push(entries.last())
    }
}

/// The fields of a value that the quest itself does not hold.
pub open spec fn extra_of(n: notation::Node, managed: spec_fn(Seq<char>) -> bool) -> Seq<
    (Seq<char>, notation::Node),
> {
    match n {
        notation::Node::Compound(entries) => other_fields(entries, managed),
        _ => Seq::empty(),
    }
}

fn is_managed_quest_field(key: &str) -> (r: bool)
    ensures
        r == is_quest_key(key@),
{
    text::same(key, "id") || text::same(key, "title") || text::same(key, "description") || text::same(key, "x") || text::same(key, "y") || text::same(key, "size") || text::same(key, "shape") || text::same(key, "icon") || text::same(key, "dependencies") || text::same(key, "tasks") || text::same(key, "rewards") || text::same(key, "subtitle") || text::same(key, "tags") || text::same(key, "icon_scale") || text::same(key, "min_width") || text::same(key, "dependency_requirement") || text::same(key, "min_required_dependencies") || text::same(key, "max_completable_dependents") || text::same(key, "hide_until_deps_visible") || text::same(key, "hide_until_deps_complete") || text::same(key, "hide_dependency_lines") || text::same(key, "hide_dependent_lines") || text::same(key, "hide_details_until_startable") || text::same(key, "hide_text_until_complete") || text::same(key, "hide_lock_icon") || text::same(key, "invisible") || text::same(key, "invisible_until_tasks") || text::same(key, "optional") || text::same(key, "can_repeat") || text::same(key, "repeat_cooldown") || text::same(key, "ignore_reward_blocking") || text::same(key, "progression_mode") || text::same(key, "require_sequential_tasks") || text::same(key, "disable_recipe_mod")
}

fn is_managed_chapter_field(key: &str) -> (r: bool)
    ensures
        r == is_chapter_key(key@),
{
    text::same(key, "filename") || text::same(key, "group") || text::same(key, "id") || text::same(key, "order_index") || text::same(key, "quests") || text::same(key, "title")
}

/// The kind of value whose fields are read.
#[derive(Debug, Clone, Copy, PartialEq, Eq, Structural)]
pub enum Owner {
    Quest,
    Chapter,
}

pub open spec fn managed_by(owner: Owner) -> spec_fn(Seq<char>) -> bool {
    match owner {
        Owner::Quest => |key: Seq<char>| is_quest_key(key),
        Owner::Chapter => |key: Seq<char>| is_chapter_key(key),
    }
}

/// The fields of a value that its owner does not hold itself.
pub fn extra_fields(value: &Value, owner: Owner) -> (r: TextMap<Value>)
    ensures
        snbt::nodes_of(r@) == extra_of(value@, managed_by(owner)),
{
    let mut r: TextMap<Value> = TextMap::new();
    assert(snbt::nodes_of(r@) =~= Seq::empty());
    proof {
        snbt::lemma_view(*value);
    }
    let map = match value {
        Value::Compound(map) => map,
        _ => {
            return r;
        },
    };
    let ghost entries = snbt::nodes_of(map@);
    let ghost managed = managed_by(owner);
    let n: usize = map.len();
    let mut i: usize = 0;
    assert(entries.take(0) =~= Seq::empty());
    while i < n
        invariant
            i <= n == map@.len() == entries.len(),
            entries == snbt::nodes_of(map@),
            table::ordered(map@),
            managed == managed_by(owner),
            snbt::nodes_of(r@) == other_fields(entries.take(i as int), managed),
            forall|j: int|
                0 <= j < r@.len() ==> i < n ==> text::precedes(#[trigger] r@[j].0, map@[i as int].0),
            table::ordered(r@),
        decreases n - i,
    {
        let ghost before = r@;
        let ghost key = map@[i as int].0;
        proof {
            assert(entries.take(i + 1).drop_last() =~= entries.take(i as int));
            assert(entries.take(i + 1).last() == (key, map@[i as int].1@));
        }
        let managed_here = match owner {
            Owner::Quest => is_managed_quest_field(map.key_at(i)),
            Owner::Chapter => is_managed_chapter_field(map.key_at(i)),
        };
        if !managed_here {
            let field = map.value_at(i).copy();
            proof {
                text::lemma_precedes_irreflexive(key);
                table::lemma_place_upsert(before, key, field, before.len() as int);
                table::lemma_upsert(before, key, field);
            }
            let ghost pushed = field;
            r.insert(map.key_at(i).to_owned(), field);
            assert(r@ =~= before.push((key, pushed)));
            assert(snbt::nodes_of(r@) =~= snbt::nodes_of(before).push((key, pushed@)));
        }
        proof {
            if i + 1 < n {
                assert(text::precedes(key, map@[i + 1].0));
                assert forall|j: int| 0 <= j < r@.len() implies text::precedes(
                    #[trigger] r@[j].0,
                    map@[i + 1].0,
                ) by {
                    if j < before.len() {
                        assert(r@[j] == before[j]);
                        text::lemma_precedes_transitive(before[j].0, key, map@[i + 1].0);
                    }
                }
            }
        }
        i += 1;
    }
    assert(entries.take(i as int) =~= entries);
    r
}

/// The quest that a value describes; none if it has no id.
pub open spec fn quest_of(
    n: notation::Node,
    numbers: Seq<(Seq<char>, ReadingModel)>,
) -> Option<quest::QuestModel> {
    match scalar_at(n, "id"@) {
        None => None,
        Some(id) => Some(
            quest::QuestModel {
                id,
                title: scalar_or(n, "title"@, "Без названия"@),
                description: compose::joined(scalars_at(n, "description"@), "\n"@),
                description_raw: snbt::field(n, "description"@),
                x: number_or(n, "x"@, numbers, quest::zero()),
                y: number_or(n, "y"@, numbers, quest::zero()),
                size: number_or(n, "size"@, numbers, quest::one()),
                shape: scalar_or(n, "shape"@, ""@),
                icon: item_or_empty(snbt::field(n, "icon"@)),
                icon_raw: snbt::field(n, "icon"@),
                dependencies: scalars_at(n, "dependencies"@),
                tasks: tasks_of(items_at(n, "tasks"@), numbers),
                rewards: rewards_of(items_at(n, "rewards"@), numbers),
                settings: settings_of(n, numbers),
                extra: extra_of(n, managed_by(Owner::Quest)),
            },
        ),
    }
}

fn copy_field(value: &Value, key: &str) -> (r: Option<Value>)
    ensures
        quest::opt_node(r) == snbt::field(value@, key@),
{
    match value.get(key) {
        Some(found) => Some(found.copy()),
        None => None,
    }
}

/// The quest that a value describes; none if it has no id.
pub fn import_quest(
    value: &Value,
    numbers: &TextMap<Reading>,
    report: &mut ImportReport,
) -> (r: Option<Quest>)
    ensures
        match r {
            Some(found) => {
                &&& quest_of(value@, readings_of(*numbers)) == Some(found@)
                &&& quest::has_plain_numbers(found@)
                &&& final(report).preserved_tasks == capped(
                    old(report).preserved_tasks as nat + kept_tasks(found@.tasks),
                )
                &&& final(report).preserved_rewards == capped(
                    old(report).preserved_rewards as nat + kept_rewards(found@.rewards),
                )
                &&& final(report).imported_languages == old(report).imported_languages
            },
            None => quest_of(value@, readings_of(*numbers)) is None && *final(report) == *old(
                report,
            ),
        },
{
    let id = match scalar(value, "id") {
        Some(id) => id.to_owned(),
        None => {
            return None;
        },
    };
    let tasks = import_tasks(value, numbers, report);
    let rewards = import_rewards(value, numbers, report);
    let lines = scalar_list(value, "description");
    let icon = match item_id(value.get("icon")) {
        Some(icon) => icon,
        None => String::new(),
    };
    Some(
        Quest {
            id,
            title: scalar_text(value, "title", "Без названия"),
            description: compose::join(&lines, "\n"),
            description_raw: copy_field(value, "description"),
            x: match number(value, "x", numbers) {
                Some(x) => x,
                None => Number::zero(),
            },
            y: match number(value, "y", numbers) {
                Some(y) => y,
                None => Number::zero(),
            },
            size: match number(value, "size", numbers) {
                Some(size) => size,
                None => Number::one(),
            },
            shape: scalar_text(value, "shape", ""),
            icon,
            icon_raw: copy_field(value, "icon"),
            dependencies: scalar_list(value, "dependencies"),
            tasks,
            rewards,
            settings: import_quest_settings(value, numbers),
            extra: extra_fields(value, Owner::Quest),
        },
    )
}

/// The quests that values describe.
pub open spec fn quests_in(
    values: Seq<notation::Node>,
    numbers: Seq<(Seq<char>, ReadingModel)>,
) -> Seq<quest::QuestModel>
    decreases values.len(),
{
    if values.len() == 0 {
        Seq::empty()
    } else {
        match quest_of(values.last(), numbers) {
            Some(found) => quests_in(values.drop_last(), numbers).push(found),
            None => quests_in(values.drop_last(), numbers),
        }
    }
}

/// The number of tasks of quests that are only kept.
pub open spec fn kept_tasks_of(quests: Seq<quest::QuestModel>) -> nat
    decreases quests.len(),
{
    if quests.len() == 0 {
        0
    } else {
        kept_tasks_of(quests.drop_last()) + kept_tasks(quests.last().tasks)
    }
}

/// The number of rewards of quests that are only kept.
pub open spec fn kept_rewards_of(quests: Seq<quest::QuestModel>) -> nat
    decreases quests.len(),
{
    if quests.len() == 0 {
        0
    } else {
        kept_rewards_of(quests.drop_last()) + kept_rewards(quests.last().rewards)
    }
}

fn import_quests(value: &Value, numbers: &TextMap<Reading>, report: &mut ImportReport) -> (r: Vec<
    Quest,
>)
    ensures
        order::views(r@) == quests_in(items_at(value@, "quests"@), readings_of(*numbers)),
        quest::have_plain_numbers(order::views(r@)),
        final(report).preserved_tasks == capped(
            old(report).preserved_tasks as nat + kept_tasks_of(order::views(r@)),
        ),
        final(report).preserved_rewards == capped(
            old(report).preserved_rewards as nat + kept_rewards_of(order::views(r@)),
        ),
        final(report).imported_languages == old(report).imported_languages,
{
    let mut r: Vec<Quest> = Vec::new();
    assert(order::views(r@) =~= Seq::empty());
    let values = match list(value, "quests") {
        Some(values) => values,
        None => {
            return r;
        },
    };
    let ghost nodes = snbt::nodes_in(values@);
    let ghost table = readings_of(*numbers);
    let ghost tasks = report.preserved_tasks;
    let ghost rewards = report.preserved_rewards;
    let mut i: usize = 0;
    assert(nodes.take(0) =~= Seq::empty());
    while i < values.len()
        invariant
            i <= values@.len(),
            nodes == snbt::nodes_in(values@),
            table == readings_of(*numbers),
            order::views(r@) == quests_in(nodes.take(i as int), table),
            quest::have_plain_numbers(order::views(r@)),
            report.preserved_tasks == capped(tasks as nat + kept_tasks_of(order::views(r@))),
            report.preserved_rewards == capped(rewards as nat + kept_rewards_of(order::views(r@))),
            report.imported_languages == old(report).imported_languages,
        decreases values@.len() - i,
    {
        let ghost before = order::views(r@);
        assert(nodes.take(i + 1).drop_last() =~= nodes.take(i as int));
        assert(nodes.take(i + 1).last() == values@[i as int]@);
        match import_quest(&values[i], numbers, report) {
            Some(found) => {
                let ghost model = found@;
                r.push(found);
                assert(order::views(r@) =~= before.push(model));
                assert(before.push(model).drop_last() =~= before);
            },
            None => {},
        }
        i += 1;
    }
    assert(nodes.take(i as int) =~= nodes);
    r
}

// ---------------------------------------------------------------------------
// Chapters and groups
// ---------------------------------------------------------------------------

/// The name of a group that is not empty.
pub open spec fn group_at(n: notation::Node) -> Option<Seq<char>> {
    match scalar_at(n, "group"@) {
        Some(group) => if group.len() == 0 {
            None
        } else {
            Some(group)
        },
        None => None,
    }
}

/// The chapter that a value describes, read from a file with the given stem as the `index`th.
pub open spec fn chapter_of(
    n: notation::Node,
    stem: Option<Seq<char>>,
    index: int,
    numbers: Seq<(Seq<char>, ReadingModel)>,
) -> quest::ChapterModel {
    quest::ChapterModel {
        id: scalar_or(n, "id"@, "0"@),
        filename: match scalar_at(n, "filename"@) {
            Some(filename) => filename,
            None => match stem {
                Some(stem) => stem,
                None => "chapter"@,
            },
        },
        title: scalar_or(n, "title"@, "Без названия"@),
        group: group_at(n),
        order_index: integer_or(n, "order_index"@, numbers, index as i32),
        quests: quests_in(items_at(n, "quests"@), numbers),
        extra: extra_of(n, managed_by(Owner::Chapter)),
    }
}

/// The chapter that a value describes, read from a file with the given stem as the `index`th.
pub fn import_chapter(
    value: &Value,
    stem: Option<&str>,
    index: i32,
    numbers: &TextMap<Reading>,
    report: &mut ImportReport,
) -> (r: Chapter)
    ensures
        r@ == chapter_of(value@, text::opt_str(stem), index as int, readings_of(*numbers)),
        quest::have_plain_numbers(r@.quests),
        final(report).preserved_tasks == capped(
            old(report).preserved_tasks as nat + kept_tasks_of(r@.quests),
        ),
        final(report).preserved_rewards == capped(
            old(report).preserved_rewards as nat + kept_rewards_of(r@.quests),
        ),
        final(report).imported_languages == old(report).imported_languages,
{
    let filename = match scalar(value, "filename") {
        Some(filename) => filename.to_owned(),
        None => {
            match stem {
                Some(stem) => stem.to_owned(),
                None => "chapter".to_owned(),
            }
        },
    };
    let group = match scalar(value, "group") {
        Some(group) => {
            if text::chars_of(group).len() == 0 {
                None
            } else {
                Some(group.to_owned())
            }
        },
        None => None,
    };
    let quests = import_quests(value, numbers, report);
    Chapter {
        id: scalar_text(value, "id", "0"),
        filename,
        title: scalar_text(value, "title", "Без названия"),
        group,
        order_index: match integer(value, "order_index", numbers) {
            Some(x) => x,
            None => index,
        },
        quests,
        extra: extra_fields(value, Owner::Chapter),
    }
}

/// The group that a value describes; none if it has no id.
pub open spec fn group_of(n: notation::Node) -> Option<quest::GroupModel> {
    match scalar_at(n, "id"@) {
        Some(id) => Some(
            quest::GroupModel { id, title: scalar_or(n, "title"@, "Без названия"@) },
        ),
        None => None,
    }
}

pub open spec fn groups_of(values: Seq<notation::Node>) -> Seq<quest::GroupModel>
    decreases values.len(),
{
    if values.len() == 0 {
        Seq::empty()
    } else {
        match group_of(values.last()) {
            Some(group) => groups_of(values.drop_last()).push(group),
            None => groups_of(values.drop_last()),
        }
    }
}

/// The groups of chapters that a value describes.
pub fn import_groups(value: &Value) -> (r: Vec<ChapterGroup>)
    ensures
        order::views(r@) == groups_of(items_at(value@, "chapter_groups"@)),
{
    let mut r: Vec<ChapterGroup> = Vec::new();
    assert(order::views(r@) =~= Seq::empty());
    let values = match list(value, "chapter_groups") {
        Some(values) => values,
        None => {
            return r;
        },
    };
    let ghost nodes = snbt::nodes_in(values@);
    let mut i: usize = 0;
    assert(nodes.take(0) =~= Seq::empty());
    while i < values.len()
        invariant
            i <= values@.len(),
            nodes == snbt::nodes_in(values@),
            order::views(r@) == groups_of(nodes.take(i as int)),
        decreases values@.len() - i,
    {
        let ghost before = order::views(r@);
        assert(nodes.take(i + 1).drop_last() =~= nodes.take(i as int));
        assert(nodes.take(i + 1).last() == values@[i as int]@);
        match scalar(&values[i], "id") {
            Some(id) => {
                let group = ChapterGroup {
                    id: id.to_owned(),
                    title: scalar_text(&values[i], "title", "Без названия"),
                };
                let ghost model = group@;
                r.push(group);
                assert(order::views(r@) =~= before.push(model));
            },
            None => {},
        }
        i += 1;
    }
    assert(nodes.take(i as int) =~= nodes);
    r
}

} // verus!
