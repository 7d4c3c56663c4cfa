//! What a book that is read from its files holds: each field as it stands in the file.

use crate::diagnostics;
use crate::digits;
use crate::editor;
use crate::import;
use crate::import::ReadingModel;
use crate::notation;
use crate::order;
use crate::picks;
use crate::quest;
use crate::quest::Tristate;
use crate::snbt;
use crate::table;
use crate::compose;
use vstd::prelude::*;

verus! {

// ---------------------------------------------------------------------------
// What a field says
// ---------------------------------------------------------------------------

/// The text consists of the digits of a number and of type marks behind them.
pub open spec fn spells(s: Seq<char>, k: nat) -> bool {
    exists|m: int| #[trigger] digits_before(s, k, m)
}

/// The first characters are the digits of a number, and the others are type marks.
pub open spec fn digits_before(s: Seq<char>, k: nat, m: int) -> bool {
    &&& 0 < m <= s.len()
    &&& forall|i: int| 0 <= i < m ==> '0' <= #[trigger] s[i] <= '9'
    &&& digits::digits_value(s.take(m)) == k
    &&& forall|i: int| m <= i < s.len() ==> "bBsSlLfFdD"@.contains(#[trigger] s[i])
}

proof fn lemma_marks_go(s: Seq<char>, m: int)
    requires
        0 < m <= s.len(),
        '0' <= s[m - 1] <= '9',
        forall|i: int| m <= i < s.len() ==> "bBsSlLfFdD"@.contains(#[trigger] s[i]),
    ensures
        notation::without_marks(s) == s.take(m),
    decreases s.len(),
{
    reveal_strlit("bBsSlLfFdD");
    if m < s.len() {
        assert("bBsSlLfFdD"@.contains(s[s.len() - 1]));
        assert(s.last() == s[s.len() - 1]);
        let front = s.drop_last();
        assert forall|i: int| m <= i < front.len() implies "bBsSlLfFdD"@.contains(
            #[trigger] front[i],
        ) by {
            assert(front[i] == s[i]);
        }
        lemma_marks_go(front, m);
        assert(front.take(m) =~= s.take(m));
    } else {
        assert(s.take(m) =~= s);
    }
}

proof fn lemma_spelled(s: Seq<char>, k: nat)
    requires
        spells(s, k),
        k <= 9_007_199_254_740_992,
    ensures
        digits::whole_in(notation::without_marks(s)) == Some(k as int),
{
    let m = choose|m: int| #[trigger] digits_before(s, k, m);
    lemma_marks_go(s, m);
    let d = s.take(m);
    assert(d[0] == s[0]);
    assert(digits::without_plus(d) == d);
    assert(digits::all_digits(d));
}

proof fn lemma_spelled_below_zero(s: Seq<char>, k: nat)
    requires
        s.len() > 0,
        s[0] == '-',
        spells(s.skip(1), k),
        k <= 9_007_199_254_740_992,
    ensures
        digits::whole_in(notation::without_marks(s)) == Some(-(k as int)),
{
    let t = s.skip(1);
    let m = choose|m: int| #[trigger] digits_before(t, k, m);
    assert(s[m] == t[m - 1]);
    assert forall|i: int| m + 1 <= i < s.len() implies "bBsSlLfFdD"@.contains(#[trigger] s[i]) by {
        assert(s[i] == t[i - 1]);
    }
    lemma_marks_go(s, m + 1);
    let d = s.take(m + 1);
    assert(d.skip(1) =~= t.take(m));
    assert(digits::all_digits(d.skip(1)));
}

/// The text of a field, or the default where there is no such field or it is no text.
pub open spec fn is_text(n: notation::Node, key: Seq<char>, default: Seq<char>, r: Seq<char>) -> bool {
    match snbt::field(n, key) {
        Some(notation::Node::Scalar(s)) => r == s,
        _ => r == default,
    }
}

/// The texts in the list of a field, in their order; what else is in the list is left out.
pub open spec fn is_list_of_texts(n: notation::Node, key: Seq<char>, r: Seq<Seq<char>>) -> bool {
    match snbt::field(n, key) {
        Some(notation::Node::List(values)) => exists|places: Seq<int>| #[trigger]
            are_texts_among(values, places, r),
        _ => r.len() == 0,
    }
}

pub open spec fn are_texts_among(
    values: Seq<notation::Node>,
    places: Seq<int>,
    r: Seq<Seq<char>>,
) -> bool {
    &&& picks::picks(values, |v: notation::Node| v is Scalar, places)
    &&& r.len() == places.len()
    &&& forall|j: int|
        0 <= j < r.len() ==> values[#[trigger] places[j]] == notation::Node::Scalar(r[j])
}

/// The count in a field: that of its digits, as large as a count may be, or that of its reading.
/// It is the default where there is no such field, where it is no text, where it is below zero or
/// where it means nothing.
pub open spec fn is_count(
    n: notation::Node,
    key: Seq<char>,
    numbers: Seq<(Seq<char>, ReadingModel)>,
    default: u32,
    r: u32,
) -> bool {
    match snbt::field(n, key) {
        Some(notation::Node::Scalar(s)) => {
            let t = notation::without_marks(s);
            &&& forall|k: nat|
                #![trigger spells(s, k)]
                spells(s, k) && k <= u32::MAX ==> r == k
            &&& forall|k: nat|
                #![trigger spells(s, k)]
                spells(s, k) && u32::MAX < k <= 9_007_199_254_740_992 ==> r == u32::MAX
            &&& forall|k: nat|
                #![trigger spells(s.skip(1), k)]
                s.len() > 0 && s[0] == '-' && spells(s.skip(1), k) && 0 < k
                    <= 9_007_199_254_740_992 ==> r == default
            &&& digits::whole_in(t) is None ==> match table::lookup(numbers, t) {
                Some(reading) => match reading.count {
                    Some(x) => r == x,
                    None => r == default,
                },
                None => r == default,
            }
        },
        _ => r == default,
    }
}

/// The integer in a field: that of its digits, or that of its reading. It is the default where
/// there is no such field, where it is no text, where it does not fit or where it means nothing.
pub open spec fn is_integer(
    n: notation::Node,
    key: Seq<char>,
    numbers: Seq<(Seq<char>, ReadingModel)>,
    default: i32,
    r: i32,
) -> bool {
    match snbt::field(n, key) {
        Some(notation::Node::Scalar(s)) => {
            let t = notation::without_marks(s);
            &&& forall|k: nat|
                #![trigger spells(s, k)]
                spells(s, k) && k <= i32::MAX ==> r == k
            &&& forall|k: nat|
                #![trigger spells(s, k)]
                spells(s, k) && i32::MAX < k <= 9_007_199_254_740_992 ==> r == default
            &&& forall|k: nat|
                #![trigger spells(s.skip(1), k)]
                s.len() > 0 && s[0] == '-' && spells(s.skip(1), k) && k <= 2_147_483_648 ==> r
                    == -(k as int)
            &&& digits::whole_in(t) is None ==> match table::lookup(numbers, t) {
                Some(reading) => match reading.rounded {
                    Some(x) => r == x,
                    None => r == default,
                },
                None => r == default,
            }
        },
        _ => r == default,
    }
}

/// The number in a field, without type marks: nought, a half and one are known, and others are
/// what their readings say. It is the default where there is no such field, where it is no text
/// or where it means nothing.
pub open spec fn is_number(
    n: notation::Node,
    key: Seq<char>,
    numbers: Seq<(Seq<char>, ReadingModel)>,
    default: quest::NumberModel,
    r: quest::NumberModel,
) -> bool {
    match snbt::field(n, key) {
        Some(notation::Node::Scalar(s)) => {
            let t = notation::without_marks(s);
            &&& t == "0.0"@ ==> r == quest::zero()
            &&& t == "0.5"@ ==> r == quest::half()
            &&& t == "1.0"@ ==> r == quest::one()
            &&& t != "0.0"@ && t != "0.5"@ && t != "1.0"@ ==> match table::lookup(numbers, t) {
                Some(reading) => r == reading.number,
                None => r == default,
            }
        },
        _ => r == default,
    }
}

/// The flag in a field is set where the text says so, in capitals or small letters, or is `1b`.
pub open spec fn is_flag(n: notation::Node, key: Seq<char>, r: bool) -> bool {
    match snbt::field(n, key) {
        Some(notation::Node::Scalar(s)) => r == (compose::lowered(s) == "true"@ || s == "1b"@),
        _ => !r,
    }
}

/// The choice in a field: yes and no where the text says so, and else the default.
pub open spec fn is_tristate(n: notation::Node, key: Seq<char>, r: Tristate) -> bool {
    match snbt::field(n, key) {
        Some(notation::Node::Scalar(s)) => {
            &&& r == Tristate::True <==> compose::lowered(s) == "true"@ || s == "1b"@
            &&& r == Tristate::False <==> r != Tristate::True && (compose::lowered(s) == "false"@
                || s == "0b"@)
        },
        _ => r == Tristate::Default,
    }
}

/// The name of an item: the text itself, or the id of a compound.
pub open spec fn is_item(n: notation::Node, key: Seq<char>, r: Seq<char>) -> bool {
    match snbt::field(n, key) {
        Some(notation::Node::Scalar(s)) => r == s,
        Some(item) => is_text(item, "id"@, Seq::empty(), r),
        None => r.len() == 0,
    }
}

proof fn lemma_text(n: notation::Node, key: Seq<char>, default: Seq<char>)
    ensures
        is_text(n, key, default, import::scalar_or(n, key, default)),
{
}

proof fn lemma_scalars_made(values: Seq<notation::Node>)
    ensures
        import::scalars_in(values) == picks::made(
            values,
            |v: notation::Node|
                match v {
                    notation::Node::Scalar(s) => Some(s),
                    _ => None,
                },
        ),
    decreases values.len(),
{
    if values.len() > 0 {
        lemma_scalars_made(values.drop_last());
    }
}

/// The texts that are taken from a list are those in it.
pub proof fn lemma_texts(n: notation::Node, key: Seq<char>)
    ensures
        is_list_of_texts(n, key, import::scalars_at(n, key)),
{
    match snbt::field(n, key) {
        Some(notation::Node::List(values)) => {
            let f = |v: notation::Node|
                match v {
                    notation::Node::Scalar(s) => Some(s),
                    _ => None,
                };
            lemma_scalars_made(values);
            let places = picks::lemma_made(values, f);
            picks::lemma_same_wish(
                values,
                |v: notation::Node| f(v) is Some,
                |v: notation::Node| v is Scalar,
                places,
            );
            let r = import::scalars_at(n, key);
            assert forall|j: int| 0 <= j < r.len() implies values[#[trigger] places[j]]
                == notation::Node::Scalar(r[j]) by {
                assert(f(values[places[j]]) == Some(picks::made(values, f)[j]));
            }
            assert(are_texts_among(values, places, r));
        },
        _ => {},
    }
}

/// The texts in the list of a field are what they are: there is but one way to take them.
pub proof fn lemma_texts_once(n: notation::Node, key: Seq<char>, lines: Seq<Seq<char>>)
    requires
        is_list_of_texts(n, key, lines),
    ensures
        lines == import::scalars_at(n, key),
{
    lemma_texts(n, key);
    let other = import::scalars_at(n, key);
    match snbt::field(n, key) {
        Some(notation::Node::List(values)) => {
            let a = choose|places: Seq<int>| #[trigger] are_texts_among(values, places, lines);
            let b = choose|places: Seq<int>| #[trigger] are_texts_among(values, places, other);
            picks::lemma_picks_once(values, |v: notation::Node| v is Scalar, a, b);
            assert forall|j: int| 0 <= j < lines.len() implies lines[j] == other[j] by {
                assert(values[a[j]] == notation::Node::Scalar(lines[j]));
                assert(values[b[j]] == notation::Node::Scalar(other[j]));
            }
            assert(lines =~= other);
        },
        _ => {
            assert(lines =~= other);
        },
    }
}

proof fn lemma_count(
    n: notation::Node,
    key: Seq<char>,
    numbers: Seq<(Seq<char>, ReadingModel)>,
    default: u32,
)
    ensures
        is_count(n, key, numbers, default, import::count_or(n, key, numbers, default)),
{
    match snbt::field(n, key) {
        Some(notation::Node::Scalar(s)) => {
            let r = import::count_or(n, key, numbers, default);
            assert forall|k: nat| #![trigger spells(s, k)] spells(s, k) && k <= u32::MAX implies r
                == k by {
                lemma_spelled(s, k);
            }
            assert forall|k: nat|
                #![trigger spells(s, k)]
                spells(s, k) && u32::MAX < k <= 9_007_199_254_740_992 implies r == u32::MAX by {
                lemma_spelled(s, k);
            }
            assert forall|k: nat|
                #![trigger spells(s.skip(1), k)]
                s.len() > 0 && s[0] == '-' && spells(s.skip(1), k) && 0 < k
                    <= 9_007_199_254_740_992 implies r == default by {
                lemma_spelled_below_zero(s, k);
            }
        },
        _ => {},
    }
}

proof fn lemma_integer(
    n: notation::Node,
    key: Seq<char>,
    numbers: Seq<(Seq<char>, ReadingModel)>,
    default: i32,
)
    ensures
        is_integer(n, key, numbers, default, import::integer_or(n, key, numbers, default)),
{
    match snbt::field(n, key) {
        Some(notation::Node::Scalar(s)) => {
            let r = import::integer_or(n, key, numbers, default);
            assert forall|k: nat| #![trigger spells(s, k)] spells(s, k) && k <= i32::MAX implies r
                == k by {
                lemma_spelled(s, k);
            }
            assert forall|k: nat|
                #![trigger spells(s, k)]
                spells(s, k) && i32::MAX < k <= 9_007_199_254_740_992 implies r == default by {
                lemma_spelled(s, k);
            }
            assert forall|k: nat|
                #![trigger spells(s.skip(1), k)]
                s.len() > 0 && s[0] == '-' && spells(s.skip(1), k) && k <= 2_147_483_648 implies r
                == -(k as int) by {
                lemma_spelled_below_zero(s, k);
            }
        },
        _ => {},
    }
}

proof fn lemma_number(
    n: notation::Node,
    key: Seq<char>,
    numbers: Seq<(Seq<char>, ReadingModel)>,
    default: quest::NumberModel,
)
    ensures
        is_number(n, key, numbers, default, import::number_or(n, key, numbers, default)),
{
    reveal_strlit("0.0");
    reveal_strlit("0.5");
    reveal_strlit("1.0");
    assert("0.0"@[2] != "0.5"@[2]);
    assert("0.0"@[0] != "1.0"@[0]);
    assert("0.5"@[0] != "1.0"@[0]);
}

proof fn lemma_tristate(n: notation::Node, key: Seq<char>)
    ensures
        is_tristate(n, key, import::tristate_at(n, key)),
{
}

// ---------------------------------------------------------------------------
// Tasks and rewards
// ---------------------------------------------------------------------------

/// Nothing can be read as the count of an entry itself.
pub open spec fn has_no_count(n: notation::Node, numbers: Seq<(Seq<char>, ReadingModel)>) -> bool {
    match snbt::field(n, "count"@) {
        Some(notation::Node::Scalar(s)) => {
            let t = notation::without_marks(s);
            ||| s.len() > 0 && s[0] == '-' && exists|k: nat|
                0 < k <= 9_007_199_254_740_992 && #[trigger] spells(s.skip(1), k)
            ||| digits::whole_in(t) is None && match table::lookup(numbers, t) {
                Some(reading) => reading.count is None,
                None => true,
            }
        },
        _ => true,
    }
}

/// How many of an item an entry stands for: its own count where it has one, or else the count in
/// the item, or else one.
pub open spec fn is_item_count(
    n: notation::Node,
    numbers: Seq<(Seq<char>, ReadingModel)>,
    r: u32,
) -> bool {
    &&& !has_no_count(n, numbers) ==> is_count(n, "count"@, numbers, r, r)
    &&& has_no_count(n, numbers) ==> match snbt::field(n, "item"@) {
        Some(item) => is_count(item, "count"@, numbers, 1, r),
        None => r == 1,
    }
}

proof fn lemma_item_count(n: notation::Node, numbers: Seq<(Seq<char>, ReadingModel)>)
    ensures
        is_item_count(n, numbers, import::item_count_of(n, numbers)),
{
    let r = import::item_count_of(n, numbers);
    if has_no_count(n, numbers) {
        match snbt::field(n, "count"@) {
            Some(notation::Node::Scalar(s)) => {
                if s.len() > 0 && s[0] == '-' && exists|k: nat|
                    0 < k <= 9_007_199_254_740_992 && #[trigger] spells(s.skip(1), k) {
                    let k = choose|k: nat|
                        0 < k <= 9_007_199_254_740_992 && #[trigger] spells(s.skip(1), k);
                    lemma_spelled_below_zero(s, k);
                }
            },
            _ => {},
        }
        assert(import::count_at(n, "count"@, numbers) is None);
        match snbt::field(n, "item"@) {
            Some(item) => lemma_count(item, "count"@, numbers, 1),
            None => {},
        }
    } else {
        lemma_count(n, "count"@, numbers, r);
        match import::count_at(n, "count"@, numbers) {
            Some(x) => {},
            None => {},
        }
    }
}

/// Where an entry of an item has no count of its own, and the item is a compound with the digits
/// of a count, that count is the one of the task and of the reward.
pub proof fn law_count_stands_in_the_item(
    n: notation::Node,
    item: notation::Node,
    count: Seq<char>,
    k: nat,
    numbers: Seq<(Seq<char>, ReadingModel)>,
)
    requires
        snbt::field(n, "type"@) == Some(notation::Node::Scalar("item"@)),
        has_no_count(n, numbers),
        snbt::field(n, "item"@) == Some(item),
        snbt::field(item, "count"@) == Some(notation::Node::Scalar(count)),
        spells(count, k),
        k <= u32::MAX,
    ensures
        import::task_of(n, numbers) matches Some(quest::TaskModel::Item { count: c, .. }) && c == k,
        import::reward_of(n, numbers) matches Some(quest::RewardModel::Item { count: c, .. }) && c
            == k,
{
    lemma_kinds_differ();
    lemma_item_count(n, numbers);
}

/// Where an entry of an item has the digits of a count, that count is the one of the task and of
/// the reward, whatever stands in the item.
pub proof fn law_count_stands_in_the_entry(
    n: notation::Node,
    count: Seq<char>,
    k: nat,
    numbers: Seq<(Seq<char>, ReadingModel)>,
)
    requires
        snbt::field(n, "type"@) == Some(notation::Node::Scalar("item"@)),
        snbt::field(n, "count"@) == Some(notation::Node::Scalar(count)),
        spells(count, k),
        k <= u32::MAX,
    ensures
        import::task_of(n, numbers) matches Some(quest::TaskModel::Item { count: c, .. }) && c == k,
        import::reward_of(n, numbers) matches Some(quest::RewardModel::Item { count: c, .. }) && c
            == k,
{
    lemma_kinds_differ();
    lemma_spelled(count, k);
}

proof fn lemma_kinds_differ()
    ensures
        "checkmark"@ != "item"@,
        "checkmark"@ != "kill"@,
        "item"@ != "kill"@,
        "xp"@ != "item"@,
{
    reveal_strlit("checkmark");
    reveal_strlit("item");
    reveal_strlit("kill");
    reveal_strlit("xp");
    assert("checkmark"@.len() == 9);
    assert("item"@.len() == 4);
    assert("xp"@.len() == 2);
    assert("item"@[0] == 'i');
    assert("kill"@[0] == 'k');
}

/// A task is read from an entry that says its type: a check mark, an item or a kill with the
/// fields of the entry, and any other type as it stands. The entry itself is kept with it.
pub proof fn law_task_is_read(n: notation::Node, numbers: Seq<(Seq<char>, ReadingModel)>)
    ensures
        match snbt::field(n, "type"@) {
            Some(notation::Node::Scalar(kind)) => match import::task_of(n, numbers) {
                Some(quest::TaskModel::Checkmark { id, title, raw }) => {
                    &&& kind == "checkmark"@
                    &&& is_text(n, "id"@, "0"@, id)
                    &&& is_text(n, "title"@, ""@, title)
                    &&& raw == Some(n)
                },
                Some(quest::TaskModel::Item { id, title, item, count, raw }) => {
                    &&& kind == "item"@
                    &&& is_text(n, "id"@, "0"@, id)
                    &&& is_text(n, "title"@, ""@, title)
                    &&& is_item(n, "item"@, item)
                    &&& is_item_count(n, numbers, count)
                    &&& raw == Some(n)
                },
                Some(quest::TaskModel::Kill { id, title, entity, count, raw }) => {
                    &&& kind == "kill"@
                    &&& is_text(n, "id"@, "0"@, id)
                    &&& is_text(n, "title"@, ""@, title)
                    &&& is_text(n, "entity"@, "minecraft:pig"@, entity)
                    &&& is_count(n, "value"@, numbers, 1, count)
                    &&& raw == Some(n)
                },
                Some(quest::TaskModel::Unsupported { kind: k, raw }) => {
                    &&& kind != "checkmark"@ && kind != "item"@ && kind != "kill"@
                    &&& k == kind
                    &&& raw == n
                },
                None => false,
            },
            _ => import::task_of(n, numbers) is None,
        },
{
    lemma_kinds_differ();
    lemma_item_count(n, numbers);
    lemma_count(n, "value"@, numbers, 1);
}

/// A reward is read from an entry that says its type: experience or an item with the fields of
/// the entry, and any other type as it stands. The entry itself is kept with it.
pub proof fn law_reward_is_read(n: notation::Node, numbers: Seq<(Seq<char>, ReadingModel)>)
    ensures
        match snbt::field(n, "type"@) {
            Some(notation::Node::Scalar(kind)) => match import::reward_of(n, numbers) {
                Some(quest::RewardModel::Xp { id, amount, raw }) => {
                    &&& kind == "xp"@
                    &&& is_text(n, "id"@, "0"@, id)
                    &&& is_count(n, "xp"@, numbers, 1, amount)
                    &&& raw == Some(n)
                },
                Some(quest::RewardModel::Item { id, item, count, raw }) => {
                    &&& kind == "item"@
                    &&& is_text(n, "id"@, "0"@, id)
                    &&& is_item(n, "item"@, item)
                    &&& is_item_count(n, numbers, count)
                    &&& raw == Some(n)
                },
                Some(quest::RewardModel::Unsupported { kind: k, raw }) => {
                    &&& kind != "xp"@ && kind != "item"@
                    &&& k == kind
                    &&& raw == n
                },
                None => false,
            },
            _ => import::reward_of(n, numbers) is None,
        },
{
    lemma_kinds_differ();
    lemma_item_count(n, numbers);
    lemma_count(n, "xp"@, numbers, 1);
}

pub open spec fn says_type(n: notation::Node) -> bool {
    snbt::field(n, "type"@) matches Some(notation::Node::Scalar(_))
}

pub open spec fn has_id(n: notation::Node) -> bool {
    snbt::field(n, "id"@) matches Some(notation::Node::Scalar(_))
}

/// The values of a list, where the field is one.
pub open spec fn listed(n: notation::Node, key: Seq<char>) -> Seq<notation::Node> {
    match snbt::field(n, key) {
        Some(notation::Node::List(values)) => values,
        _ => Seq::empty(),
    }
}

proof fn lemma_tasks_made(values: Seq<notation::Node>, numbers: Seq<(Seq<char>, ReadingModel)>)
    ensures
        import::tasks_of(values, numbers) == picks::made(
            values,
            |v: notation::Node| import::task_of(v, numbers),
        ),
        import::rewards_of(values, numbers) == picks::made(
            values,
            |v: notation::Node| import::reward_of(v, numbers),
        ),
    decreases values.len(),
{
    if values.len() > 0 {
        lemma_tasks_made(values.drop_last(), numbers);
    }
}

/// Each entry that says its type is read as a task, in the order of the entries.
pub proof fn law_all_tasks_are_read(
    values: Seq<notation::Node>,
    numbers: Seq<(Seq<char>, ReadingModel)>,
) -> (places: Seq<int>)
    ensures
        picks::picks(values, |v: notation::Node| says_type(v), places),
        import::tasks_of(values, numbers).len() == places.len(),
        forall|j: int|
            0 <= j < places.len() ==> Some(import::tasks_of(values, numbers)[j])
                == import::task_of(values[#[trigger] places[j]], numbers),
{
    let f = |v: notation::Node| import::task_of(v, numbers);
    lemma_tasks_made(values, numbers);
    let places = picks::lemma_made(values, f);
    assert forall|i: int| 0 <= i < values.len() implies (f(#[trigger] values[i]) is Some)
        == says_type(values[i]) by {
        law_task_is_read(values[i], numbers);
    }
    picks::lemma_same_wish(
        values,
        |v: notation::Node| f(v) is Some,
        |v: notation::Node| says_type(v),
        places,
    );
    places
}

/// Each entry that says its type is read as a reward, in the order of the entries.
pub proof fn law_all_rewards_are_read(
    values: Seq<notation::Node>,
    numbers: Seq<(Seq<char>, ReadingModel)>,
) -> (places: Seq<int>)
    ensures
        picks::picks(values, |v: notation::Node| says_type(v), places),
        import::rewards_of(values, numbers).len() == places.len(),
        forall|j: int|
            0 <= j < places.len() ==> Some(import::rewards_of(values, numbers)[j])
                == import::reward_of(values[#[trigger] places[j]], numbers),
{
    let f = |v: notation::Node| import::reward_of(v, numbers);
    lemma_tasks_made(values, numbers);
    let places = picks::lemma_made(values, f);
    assert forall|i: int| 0 <= i < values.len() implies (f(#[trigger] values[i]) is Some)
        == says_type(values[i]) by {
        law_reward_is_read(values[i], numbers);
    }
    picks::lemma_same_wish(
        values,
        |v: notation::Node| f(v) is Some,
        |v: notation::Node| says_type(v),
        places,
    );
    places
}

/// The tasks and rewards that are only kept are counted: those of other types.
pub proof fn law_kept_entries_are_counted(
    tasks: Seq<quest::TaskModel>,
    rewards: Seq<quest::RewardModel>,
) -> (places: (Seq<int>, Seq<int>))
    ensures
        picks::picks(tasks, |t: quest::TaskModel| t is Unsupported, places.0),
        picks::picks(rewards, |t: quest::RewardModel| t is Unsupported, places.1),
        import::kept_tasks(tasks) == places.0.len(),
        import::kept_rewards(rewards) == places.1.len(),
{
    let f = |t: quest::TaskModel|
        if t is Unsupported {
            Some(t)
        } else {
            None
        };
    let g = |t: quest::RewardModel|
        if t is Unsupported {
            Some(t)
        } else {
            None
        };
    let a = picks::lemma_made(tasks, f);
    let b = picks::lemma_made(rewards, g);
    lemma_kept_made(tasks);
    lemma_kept_rewards_made(rewards);
    picks::lemma_same_wish(
        tasks,
        |t: quest::TaskModel| f(t) is Some,
        |t: quest::TaskModel| t is Unsupported,
        a,
    );
    picks::lemma_same_wish(
        rewards,
        |t: quest::RewardModel| g(t) is Some,
        |t: quest::RewardModel| t is Unsupported,
        b,
    );
    (a, b)
}

proof fn lemma_kept_made(tasks: Seq<quest::TaskModel>)
    ensures
        import::kept_tasks(tasks) == picks::made(
            tasks,
            |t: quest::TaskModel|
                if t is Unsupported {
                    Some(t)
                } else {
                    None
                },
        ).len(),
    decreases tasks.len(),
{
    if tasks.len() > 0 {
        lemma_kept_made(tasks.drop_last());
    }
}

proof fn lemma_kept_rewards_made(rewards: Seq<quest::RewardModel>)
    ensures
        import::kept_rewards(rewards) == picks::made(
            rewards,
            |t: quest::RewardModel|
                if t is Unsupported {
                    Some(t)
                } else {
                    None
                },
        ).len(),
    decreases rewards.len(),
{
    if rewards.len() > 0 {
        lemma_kept_rewards_made(rewards.drop_last());
    }
}

/// What is only kept in a book is what is only kept in its quests.
pub proof fn law_kept_entries_add_up(
    a: Seq<quest::QuestModel>,
    q: quest::QuestModel,
    b: Seq<quest::QuestModel>,
)
    ensures
        import::kept_tasks_of(Seq::empty()) == 0,
        import::kept_rewards_of(Seq::empty()) == 0,
        import::kept_tasks_of(a + seq![q] + b) == import::kept_tasks_of(a) + import::kept_tasks(
            q.tasks,
        ) + import::kept_tasks_of(b),
        import::kept_rewards_of(a + seq![q] + b) == import::kept_rewards_of(a)
            + import::kept_rewards(q.rewards) + import::kept_rewards_of(b),
    decreases b.len(),
{
    let all = a + seq![q] + b;
    if b.len() == 0 {
        assert(all.drop_last() =~= a);
    } else {
        law_kept_entries_add_up(a, q, b.drop_last());
        assert(all.drop_last() =~= a + seq![q] + b.drop_last());
    }
}

// ---------------------------------------------------------------------------
// Quests
// ---------------------------------------------------------------------------

/// Each setting is what the field of its name says.
pub proof fn law_settings_are_read(n: notation::Node, numbers: Seq<(Seq<char>, ReadingModel)>)
    ensures
        ({
            let r = import::settings_of(n, numbers);
            &&& is_text(n, "subtitle"@, ""@, r.subtitle)
            &&& is_list_of_texts(n, "tags"@, r.tags)
            &&& is_number(n, "icon_scale"@, numbers, quest::one(), r.icon_scale)
            &&& is_integer(n, "min_width"@, numbers, 0, r.min_width)
            &&& is_text(n, "dependency_requirement"@, "all_completed"@, r.dependency_requirement)
            &&& is_count(n, "min_required_dependencies"@, numbers, 0, r.min_required_dependencies)
            &&& is_count(n, "max_completable_dependents"@, numbers, 0, r.max_completable_dependents)
            &&& is_tristate(n, "hide_until_deps_visible"@, r.hide_until_deps_visible)
            &&& is_tristate(n, "hide_until_deps_complete"@, r.hide_until_deps_complete)
            &&& is_tristate(n, "hide_dependency_lines"@, r.hide_dependency_lines)
            &&& is_flag(n, "hide_dependent_lines"@, r.hide_dependent_lines)
            &&& is_tristate(n, "hide_details_until_startable"@, r.hide_details_until_startable)
            &&& is_tristate(n, "hide_text_until_complete"@, r.hide_text_until_complete)
            &&& is_flag(n, "hide_lock_icon"@, r.hide_lock_icon)
            &&& is_flag(n, "invisible"@, r.invisible)
            &&& is_count(n, "invisible_until_tasks"@, numbers, 0, r.invisible_until_tasks)
            &&& is_flag(n, "optional"@, r.optional)
            &&& is_tristate(n, "can_repeat"@, r.can_repeat)
            &&& is_count(n, "repeat_cooldown"@, numbers, 0, r.repeat_cooldown)
            &&& is_flag(n, "ignore_reward_blocking"@, r.ignore_reward_blocking)
            &&& is_text(n, "progression_mode"@, "default"@, r.progression_mode)
            &&& is_tristate(n, "require_sequential_tasks"@, r.require_sequential_tasks)
            &&& is_tristate(n, "disable_recipe_mod"@, r.disable_recipe_mod)
        }),
{
    lemma_text(n, "subtitle"@, ""@);
    lemma_texts(n, "tags"@);
    lemma_number(n, "icon_scale"@, numbers, quest::one());
    lemma_integer(n, "min_width"@, numbers, 0);
    lemma_text(n, "dependency_requirement"@, "all_completed"@);
    lemma_count(n, "min_required_dependencies"@, numbers, 0);
    lemma_count(n, "max_completable_dependents"@, numbers, 0);
    lemma_count(n, "invisible_until_tasks"@, numbers, 0);
    lemma_count(n, "repeat_cooldown"@, numbers, 0);
    lemma_text(n, "progression_mode"@, "default"@);
}

/// The names of the fields that a quest is made of.
pub open spec fn quest_fields() -> Seq<Seq<char>> {
    seq![
        "id"@,
        "title"@,
        "description"@,
        "x"@,
        "y"@,
        "size"@,
        "shape"@,
        "icon"@,
        "dependencies"@,
        "tasks"@,
        "rewards"@,
        "subtitle"@,
        "tags"@,
        "icon_scale"@,
        "min_width"@,
        "dependency_requirement"@,
        "min_required_dependencies"@,
        "max_completable_dependents"@,
        "hide_until_deps_visible"@,
        "hide_until_deps_complete"@,
        "hide_dependency_lines"@,
        "hide_dependent_lines"@,
        "hide_details_until_startable"@,
        "hide_text_until_complete"@,
        "hide_lock_icon"@,
        "invisible"@,
        "invisible_until_tasks"@,
        "optional"@,
        "can_repeat"@,
        "repeat_cooldown"@,
        "ignore_reward_blocking"@,
        "progression_mode"@,
        "require_sequential_tasks"@,
        "disable_recipe_mod"@,
    ]
}

/// The names of the fields that a chapter is made of.
pub open spec fn chapter_fields() -> Seq<Seq<char>> {
    seq!["filename"@, "group"@, "id"@, "order_index"@, "quests"@, "title"@]
}

proof fn lemma_quest_fields(key: Seq<char>)
    ensures
        import::is_quest_key(key) <==> quest_fields().contains(key),
{
    let all = quest_fields();
    assert(all[0] == "id"@);
    assert(all[1] == "title"@);
    assert(all[2] == "description"@);
    assert(all[3] == "x"@);
    assert(all[4] == "y"@);
    assert(all[5] == "size"@);
    assert(all[6] == "shape"@);
    assert(all[7] == "icon"@);
    assert(all[8] == "dependencies"@);
    assert(all[9] == "tasks"@);
    assert(all[10] == "rewards"@);
    assert(all[11] == "subtitle"@);
    assert(all[12] == "tags"@);
    assert(all[13] == "icon_scale"@);
    assert(all[14] == "min_width"@);
    assert(all[15] == "dependency_requirement"@);
    assert(all[16] == "min_required_dependencies"@);
    assert(all[17] == "max_completable_dependents"@);
    assert(all[18] == "hide_until_deps_visible"@);
    assert(all[19] == "hide_until_deps_complete"@);
    assert(all[20] == "hide_dependency_lines"@);
    assert(all[21] == "hide_dependent_lines"@);
    assert(all[22] == "hide_details_until_startable"@);
    assert(all[23] == "hide_text_until_complete"@);
    assert(all[24] == "hide_lock_icon"@);
    assert(all[25] == "invisible"@);
    assert(all[26] == "invisible_until_tasks"@);
    assert(all[27] == "optional"@);
    assert(all[28] == "can_repeat"@);
    assert(all[29] == "repeat_cooldown"@);
    assert(all[30] == "ignore_reward_blocking"@);
    assert(all[31] == "progression_mode"@);
    assert(all[32] == "require_sequential_tasks"@);
    assert(all[33] == "disable_recipe_mod"@);
    if all.contains(key) {
        let i = choose|i: int| 0 <= i < all.len() && all[i] == key;
    }
}

proof fn lemma_chapter_fields(key: Seq<char>)
    ensures
        import::is_chapter_key(key) <==> chapter_fields().contains(key),
{
    let all = chapter_fields();
    assert(all[0] == "filename"@);
    assert(all[1] == "group"@);
    assert(all[2] == "id"@);
    assert(all[3] == "order_index"@);
    assert(all[4] == "quests"@);
    assert(all[5] == "title"@);
    if all.contains(key) {
        let i = choose|i: int| 0 <= i < all.len() && all[i] == key;
    }
}

/// The fields that are kept are those with other names, in their order and with their values.
pub open spec fn are_other_fields(
    n: notation::Node,
    names: Seq<Seq<char>>,
    r: Seq<(Seq<char>, notation::Node)>,
) -> bool {
    match n {
        notation::Node::Compound(entries) => exists|places: Seq<int>| #[trigger]
            are_other_entries(entries, names, places, r),
        _ => r.len() == 0,
    }
}

pub open spec fn are_other_entries(
    entries: Seq<(Seq<char>, notation::Node)>,
    names: Seq<Seq<char>>,
    places: Seq<int>,
    r: Seq<(Seq<char>, notation::Node)>,
) -> bool {
    &&& picks::picks(entries, |e: (Seq<char>, notation::Node)| !names.contains(e.0), places)
    &&& r.len() == places.len()
    &&& forall|j: int| 0 <= j < r.len() ==> entries[#[trigger] places[j]] == r[j]
}

proof fn lemma_other_made(
    entries: Seq<(Seq<char>, notation::Node)>,
    managed: spec_fn(Seq<char>) -> bool,
)
    ensures
        import::other_fields(entries, managed) == picks::made(
            entries,
            |e: (Seq<char>, notation::Node)|
                if managed(e.0) {
                    None
                } else {
                    Some(e)
                },
        ),
    decreases entries.len(),
{
    if entries.len() > 0 {
        lemma_other_made(entries.drop_last(), managed);
    }
}

proof fn lemma_other_fields(n: notation::Node, owner: import::Owner, names: Seq<Seq<char>>)
    requires
        forall|key: Seq<char>|
            #[trigger] (import::managed_by(owner))(key) <==> names.contains(key),
    ensures
        are_other_fields(n, names, import::extra_of(n, import::managed_by(owner))),
{
    let managed = import::managed_by(owner);
    match n {
        notation::Node::Compound(entries) => {
            let f = |e: (Seq<char>, notation::Node)|
                if managed(e.0) {
                    None
                } else {
                    Some(e)
                };
            lemma_other_made(entries, managed);
            let places = picks::lemma_made(entries, f);
            picks::lemma_same_wish(
                entries,
                |e: (Seq<char>, notation::Node)| f(e) is Some,
                |e: (Seq<char>, notation::Node)| !names.contains(e.0),
                places,
            );
            let r = import::extra_of(n, managed);
            assert forall|j: int| 0 <= j < r.len() implies entries[#[trigger] places[j]] == r[j] by {
                assert(f(entries[places[j]]) == Some(picks::made(entries, f)[j]));
            }
            assert(are_other_entries(entries, names, places, r));
        },
        _ => {},
    }
}

/// A quest is read from a value that has an id: each part is what the field of its name says, the
/// lines of the description are put together, and fields of other names are kept as they are.
pub proof fn law_quest_is_read(n: notation::Node, numbers: Seq<(Seq<char>, ReadingModel)>)
    ensures
        match import::quest_of(n, numbers) {
            Some(r) => {
                &&& snbt::field(n, "id"@) == Some(notation::Node::Scalar(r.id))
                &&& is_text(n, "title"@, "Без названия"@, r.title)
                &&& exists|lines: Seq<Seq<char>>|
                    #![trigger compose::joined(lines, "\n"@)]
                    is_list_of_texts(n, "description"@, lines) && r.description == compose::joined(
                        lines,
                        "\n"@,
                    )
                &&& r.description_raw == snbt::field(n, "description"@)
                &&& is_number(n, "x"@, numbers, quest::zero(), r.x)
                &&& is_number(n, "y"@, numbers, quest::zero(), r.y)
                &&& is_number(n, "size"@, numbers, quest::one(), r.size)
                &&& is_text(n, "shape"@, ""@, r.shape)
                &&& is_item(n, "icon"@, r.icon)
                &&& r.icon_raw == snbt::field(n, "icon"@)
                &&& is_list_of_texts(n, "dependencies"@, r.dependencies)
                &&& r.tasks == import::tasks_of(listed(n, "tasks"@), numbers)
                &&& r.rewards == import::rewards_of(listed(n, "rewards"@), numbers)
                &&& r.settings == import::settings_of(n, numbers)
                &&& are_other_fields(n, quest_fields(), r.extra)
            },
            None => !has_id(n),
        },
        has_id(n) ==> import::quest_of(n, numbers) is Some,
{
    match import::quest_of(n, numbers) {
        Some(r) => {
            lemma_texts(n, "description"@);
            let lines = import::scalars_at(n, "description"@);
            assert(r.description == compose::joined(lines, "\n"@));
            lemma_number(n, "x"@, numbers, quest::zero());
            lemma_number(n, "y"@, numbers, quest::zero());
            lemma_number(n, "size"@, numbers, quest::one());
            lemma_texts(n, "dependencies"@);
            assert forall|key: Seq<char>|
                #[trigger] (import::managed_by(import::Owner::Quest))(key)
                    <==> quest_fields().contains(key) by {
                lemma_quest_fields(key);
            }
            lemma_other_fields(n, import::Owner::Quest, quest_fields());
        },
        None => {},
    }
}

proof fn lemma_quests_made(values: Seq<notation::Node>, numbers: Seq<(Seq<char>, ReadingModel)>)
    ensures
        import::quests_in(values, numbers) == picks::made(
            values,
            |v: notation::Node| import::quest_of(v, numbers),
        ),
    decreases values.len(),
{
    if values.len() > 0 {
        lemma_quests_made(values.drop_last(), numbers);
    }
}

/// Each value that has an id is read as a quest, in the order of the values.
pub proof fn law_all_quests_are_read(
    values: Seq<notation::Node>,
    numbers: Seq<(Seq<char>, ReadingModel)>,
) -> (places: Seq<int>)
    ensures
        picks::picks(values, |v: notation::Node| has_id(v), places),
        import::quests_in(values, numbers).len() == places.len(),
        forall|j: int|
            0 <= j < places.len() ==> Some(import::quests_in(values, numbers)[j])
                == import::quest_of(values[#[trigger] places[j]], numbers),
{
    let f = |v: notation::Node| import::quest_of(v, numbers);
    lemma_quests_made(values, numbers);
    let places = picks::lemma_made(values, f);
    picks::lemma_same_wish(
        values,
        |v: notation::Node| f(v) is Some,
        |v: notation::Node| has_id(v),
        places,
    );
    places
}

// ---------------------------------------------------------------------------
// Chapters, groups and books
// ---------------------------------------------------------------------------

/// Each part of a chapter is what the field of its name says; where it says no file name, that of
/// its file is taken, and where it says no place among the chapters, that of its file.
pub proof fn law_chapter_is_read(
    n: notation::Node,
    stem: Option<Seq<char>>,
    index: i32,
    numbers: Seq<(Seq<char>, ReadingModel)>,
)
    ensures
        ({
            let r = import::chapter_of(n, stem, index as int, numbers);
            &&& is_text(n, "id"@, "0"@, r.id)
            &&& is_text(n, "title"@, "Без названия"@, r.title)
            &&& stem matches Some(name) ==> is_text(n, "filename"@, name, r.filename)
            &&& stem is None ==> is_text(n, "filename"@, "chapter"@, r.filename)
            &&& match snbt::field(n, "group"@) {
                Some(notation::Node::Scalar(group)) => if group.len() == 0 {
                    r.group is None
                } else {
                    r.group == Some(group)
                },
                _ => r.group is None,
            }
            &&& is_integer(n, "order_index"@, numbers, index, r.order_index)
            &&& r.quests == import::quests_in(listed(n, "quests"@), numbers)
            &&& are_other_fields(n, chapter_fields(), r.extra)
        }),
{
    lemma_integer(n, "order_index"@, numbers, index);
    assert forall|key: Seq<char>|
        #[trigger] (import::managed_by(import::Owner::Chapter))(key) <==> chapter_fields().contains(
            key,
        ) by {
        lemma_chapter_fields(key);
    }
    lemma_other_fields(n, import::Owner::Chapter, chapter_fields());
}

proof fn lemma_groups_made(values: Seq<notation::Node>)
    ensures
        import::groups_of(values) == picks::made(
            values,
            |v: notation::Node| import::group_of(v),
        ),
    decreases values.len(),
{
    if values.len() > 0 {
        lemma_groups_made(values.drop_last());
    }
}

/// Each value that has an id is read as a group, in the order of the values and with its title.
pub proof fn law_all_groups_are_read(values: Seq<notation::Node>) -> (places: Seq<int>)
    ensures
        picks::picks(values, |v: notation::Node| has_id(v), places),
        import::groups_of(values).len() == places.len(),
        forall|j: int|
            #![trigger places[j]]
            0 <= j < places.len() ==> {
                let group = import::groups_of(values)[j];
                &&& snbt::field(values[places[j]], "id"@) == Some(
                    notation::Node::Scalar(group.id),
                )
                &&& is_text(values[places[j]], "title"@, "Без названия"@, group.title)
            },
{
    let f = |v: notation::Node| import::group_of(v);
    lemma_groups_made(values);
    let places = picks::lemma_made(values, f);
    picks::lemma_same_wish(
        values,
        |v: notation::Node| f(v) is Some,
        |v: notation::Node| has_id(v),
        places,
    );
    places
}

/// A book is made of all that was found: its title and its scale as its data say, the groups of
/// its file, all its chapters by their place, those of the same place as they were found, and all
/// kept files and languages.
pub proof fn law_book_is_read(
    parts: editor::PartsModel,
    numbers: Seq<(Seq<char>, ReadingModel)>,
)
    ensures
        ({
            let book = editor::book_of(parts, numbers);
            let found = editor::chapters_in(parts.chapters, numbers);
            &&& parts.source_name matches Some(name) ==> is_text(
                parts.data,
                "title"@,
                name,
                book.title,
            )
            &&& parts.source_name is None ==> is_text(
                parts.data,
                "title"@,
                "Импортированная книга"@,
                book.title,
            )
            &&& is_number(parts.data, "grid_scale"@, numbers, quest::half(), book.grid_scale)
            &&& parts.groups is None ==> book.groups.len() == 0
            &&& parts.groups matches Some(n) ==> book.groups == import::groups_of(
                listed(n, "chapter_groups"@),
            )
            &&& found.len() == parts.chapters.len()
            &&& forall|i: int|
                #![trigger found[i]]
                0 <= i < found.len() && i <= i32::MAX ==> found[i] == import::chapter_of(
                    parts.chapters[i].value,
                    parts.chapters[i].stem,
                    i,
                    numbers,
                )
            &&& book.chapters.to_multiset() == found.to_multiset()
            &&& forall|i: int, j: int|
                0 <= i < j < book.chapters.len() ==> (#[trigger] book.chapters[i]).order_index <= (
                #[trigger] book.chapters[j]).order_index
            &&& book.preserved_files.to_multiset() == parts.preserved_files.to_multiset()
            &&& book.translations == parts.translations
        }),
{
    lemma_number(parts.data, "grid_scale"@, numbers, quest::half());
    let book = editor::book_of(parts, numbers);
    let found = editor::chapters_in(parts.chapters, numbers);
    let before = order::ranking::<quest::Chapter>();
    order::lemma_sorted_keeps(found, before);
    order::lemma_sorted_keeps(
        parts.preserved_files,
        order::ranking::<editor::PreservedFile>(),
    );
    order::lemma_sorted_in_order(found, before);
    assert forall|i: int, j: int| 0 <= i < j < book.chapters.len() implies (
    #[trigger] book.chapters[i]).order_index <= (#[trigger] book.chapters[j]).order_index by {
        assert(!before(book.chapters[j], book.chapters[i]));
    }
}

// ---------------------------------------------------------------------------
// Numbers to be read
// ---------------------------------------------------------------------------

/// The texts of numbers in a value are those of the values in it, however deep, and of a text its
/// own without type marks, where that is a number.
pub proof fn law_number_texts_are_found(n: notation::Node, t: Seq<char>)
    ensures
        match n {
            notation::Node::Compound(entries) => import::numbers_in(n).contains(t) <==> exists|i: int|
                0 <= i < entries.len() && #[trigger] import::numbers_in(entries[i].1).contains(t),
            notation::Node::List(values) => import::numbers_in(n).contains(t) <==> exists|i: int|
                0 <= i < values.len() && #[trigger] import::numbers_in(values[i]).contains(t),
            notation::Node::Scalar(s) => import::numbers_in(n).contains(t) <==> t
                == notation::without_marks(s) && notation::is_number(t),
        },
{
    match n {
        notation::Node::Compound(entries) => lemma_numbers_in_fields(entries, t),
        notation::Node::List(values) => lemma_numbers_in_items(values, t),
        notation::Node::Scalar(s) => {
            if notation::is_number(notation::without_marks(s)) {
                assert(import::numbers_in(n)[0] == notation::without_marks(s));
            }
        },
    }
}

proof fn lemma_of_both<A>(a: Seq<A>, b: Seq<A>, t: A)
    ensures
        (a + b).contains(t) <==> a.contains(t) || b.contains(t),
{
    let all = a + b;
    if a.contains(t) {
        let i = choose|i: int| 0 <= i < a.len() && a[i] == t;
        assert(all[i] == t);
    }
    if b.contains(t) {
        let i = choose|i: int| 0 <= i < b.len() && b[i] == t;
        assert(all[a.len() + i] == t);
    }
    if all.contains(t) {
        let i = choose|i: int| 0 <= i < all.len() && all[i] == t;
        if i < a.len() {
            assert(a[i] == t);
        } else {
            assert(b[i - a.len()] == t);
        }
    }
}

proof fn lemma_numbers_in_fields(entries: Seq<(Seq<char>, notation::Node)>, t: Seq<char>)
    ensures
        import::numbers_in_fields(entries).contains(t) <==> exists|i: int|
            0 <= i < entries.len() && #[trigger] import::numbers_in(entries[i].1).contains(t),
    decreases entries.len(),
{
    if entries.len() > 0 {
        let front = entries.drop_last();
        lemma_numbers_in_fields(front, t);
        lemma_of_both(
            import::numbers_in_fields(front),
            import::numbers_in(entries.last().1),
            t,
        );
        assert(entries[entries.len() - 1] == entries.last());
        assert forall|i: int| 0 <= i < front.len() implies front[i] == entries[i] by {}
        if exists|i: int|
            0 <= i < front.len() && #[trigger] import::numbers_in(front[i].1).contains(t) {
            let i = choose|i: int|
                0 <= i < front.len() && #[trigger] import::numbers_in(front[i].1).contains(t);
            assert(import::numbers_in(entries[i].1).contains(t));
        }
        if exists|i: int|
            0 <= i < entries.len() && #[trigger] import::numbers_in(entries[i].1).contains(t) {
            let i = choose|i: int|
                0 <= i < entries.len() && #[trigger] import::numbers_in(entries[i].1).contains(t);
            if i < front.len() {
                assert(import::numbers_in(front[i].1).contains(t));
            }
        }
    }
}

proof fn lemma_numbers_in_items(values: Seq<notation::Node>, t: Seq<char>)
    ensures
        import::numbers_in_items(values).contains(t) <==> exists|i: int|
            0 <= i < values.len() && #[trigger] import::numbers_in(values[i]).contains(t),
    decreases values.len(),
{
    if values.len() > 0 {
        let front = values.drop_last();
        lemma_numbers_in_items(front, t);
        lemma_of_both(import::numbers_in_items(front), import::numbers_in(values.last()), t);
        assert(values[values.len() - 1] == values.last());
        if exists|i: int|
            0 <= i < front.len() && #[trigger] import::numbers_in(front[i]).contains(t) {
            let i = choose|i: int|
                0 <= i < front.len() && #[trigger] import::numbers_in(front[i]).contains(t);
            assert(import::numbers_in(values[i]).contains(t));
        }
        if exists|i: int|
            0 <= i < values.len() && #[trigger] import::numbers_in(values[i]).contains(t) {
            let i = choose|i: int|
                0 <= i < values.len() && #[trigger] import::numbers_in(values[i]).contains(t);
            if i < front.len() {
                assert(import::numbers_in(front[i]).contains(t));
            }
        }
    }
}

} // verus!
