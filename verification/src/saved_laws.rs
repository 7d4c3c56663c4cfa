//! A saved book is read back.

use crate::compose;
use crate::digits;
use crate::editor;
use crate::editor::Chapter;
use crate::export;
use crate::import;
use crate::layout;
use crate::layout_laws;
use crate::notation;
use crate::notation_laws;
use crate::order;
use crate::quest;
use crate::saved_entries;
use crate::saved_fields;
use crate::saved_quests;
use crate::snbt;
use crate::table;
use crate::text;
use vstd::prelude::*;

verus! {

// ---------------------------------------------------------------------------
// The value of a written chapter
// ---------------------------------------------------------------------------

pub open spec fn quest_nodes(
    quests: Seq<quest::QuestModel>,
    numbers: Seq<(Seq<char>, import::ReadingModel)>,
) -> Seq<notation::Node> {
    Seq::new(quests.len(), |i: int| saved_quests::quest_node(quests[i], numbers))
}

/// What stands in the file of a chapter in which the field is missing.
pub open spec fn default_field(key: Seq<char>) -> Option<notation::Node> {
    if key == "default_hide_dependency_lines"@ {
        Some(notation::Node::Scalar("false"@))
    } else if key == "default_quest_shape"@ {
        Some(notation::Node::Scalar(Seq::empty()))
    } else if key == "progression_mode"@ {
        Some(notation::Node::Scalar("flexible"@))
    } else if key == "quest_links"@ {
        Some(notation::Node::List(Seq::empty()))
    } else {
        None
    }
}

pub open spec fn group_name(group: Option<Seq<char>>) -> Seq<char> {
    match group {
        Some(group) => group,
        None => Seq::empty(),
    }
}

/// The fields that a written chapter is read as.
pub open spec fn chapter_fields(
    c: quest::ChapterModel,
    numbers: Seq<(Seq<char>, import::ReadingModel)>,
) -> Seq<(Seq<char>, notation::Node)> {
    c.extra + saved_fields::field_if(
        !table::has_key(c.extra, "default_hide_dependency_lines"@),
        "default_hide_dependency_lines"@,
        notation::Node::Scalar("false"@),
    ) + saved_fields::field_if(
        !table::has_key(c.extra, "default_quest_shape"@),
        "default_quest_shape"@,
        notation::Node::Scalar(Seq::empty()),
    ) + seq![("filename"@, notation::Node::Scalar(c.filename))] + seq![
        ("group"@, notation::Node::Scalar(group_name(c.group))),
    ] + seq![("id"@, notation::Node::Scalar(c.id))] + seq![
        (
            "order_index"@,
            notation::Node::Scalar(compose::signed_decimal(c.order_index as int)),
        ),
    ] + saved_fields::field_if(
        !table::has_key(c.extra, "progression_mode"@),
        "progression_mode"@,
        notation::Node::Scalar("flexible"@),
    ) + saved_fields::field_if(
        !table::has_key(c.extra, "quest_links"@),
        "quest_links"@,
        notation::Node::List(Seq::empty()),
    ) + seq![("quests"@, notation::Node::List(quest_nodes(c.quests, numbers)))] + seq![
        ("title"@, notation::Node::Scalar(c.title)),
    ]
}

/// The value that the file of a chapter is read as.
pub open spec fn chapter_node(
    c: quest::ChapterModel,
    numbers: Seq<(Seq<char>, import::ReadingModel)>,
) -> notation::Node {
    notation::Node::Compound(layout_laws::assembled(chapter_fields(c, numbers)))
}

/// A chapter that can be written: its quests are such, and the names of the fields that it only
/// keeps can stand without quotes.
pub open spec fn is_storable_chapter(c: quest::ChapterModel) -> bool {
    &&& saved_quests::are_storable_fields(c.extra, import::managed_by(import::Owner::Chapter))
    &&& forall|i: int|
        0 <= i < c.quests.len() ==> saved_quests::is_storable_quest(#[trigger] c.quests[i])
}

// ---------------------------------------------------------------------------
// The text is read as the value
// ---------------------------------------------------------------------------

proof fn lemma_chapter_names()
    ensures
        layout_laws::is_bare_key("default_hide_dependency_lines"@),
        layout_laws::is_bare_key("default_quest_shape"@),
        layout_laws::is_bare_key("filename"@),
        layout_laws::is_bare_key("group"@),
        layout_laws::is_bare_key("id"@),
        layout_laws::is_bare_key("order_index"@),
        layout_laws::is_bare_key("progression_mode"@),
        layout_laws::is_bare_key("quest_links"@),
        layout_laws::is_bare_key("quests"@),
        layout_laws::is_bare_key("title"@),
{
    reveal_strlit("default_hide_dependency_lines");
    reveal_strlit("default_quest_shape");
    reveal_strlit("filename");
    reveal_strlit("group");
    reveal_strlit("id");
    reveal_strlit("order_index");
    reveal_strlit("progression_mode");
    reveal_strlit("quest_links");
    reveal_strlit("quests");
    reveal_strlit("title");
    saved_fields::lemma_bare_key("default_hide_dependency_lines"@);
    saved_fields::lemma_bare_key("default_quest_shape"@);
    saved_fields::lemma_bare_key("filename"@);
    saved_fields::lemma_bare_key("group"@);
    saved_fields::lemma_bare_key("id"@);
    saved_fields::lemma_bare_key("order_index"@);
    saved_fields::lemma_bare_key("progression_mode"@);
    saved_fields::lemma_bare_key("quest_links"@);
    saved_fields::lemma_bare_key("quests"@);
    saved_fields::lemma_bare_key("title"@);
}

/// The texts of the fields that were missing are read as their values.
proof fn lemma_defaults_read()
    ensures
        layout_laws::reads("false"@, notation::Node::Scalar("false"@)),
        layout_laws::reads("\"\""@, notation::Node::Scalar(Seq::empty())),
        layout_laws::reads("\"flexible\""@, notation::Node::Scalar("flexible"@)),
        layout_laws::reads("[ ]"@, notation::Node::List(Seq::empty())),
{
    saved_fields::lemma_truth_reads();
    layout_laws::lemma_empty_list_reads();
    reveal_strlit("\"\"");
    reveal_strlit("flexible");
    reveal_strlit("\"flexible\"");
    saved_entries::lemma_plain_quotes(Seq::empty());
    saved_entries::lemma_plain_quotes("flexible"@);
    assert("\"\""@ =~= seq!['"'] + Seq::empty() + seq!['"']);
    assert("\"flexible\""@ =~= seq!['"'] + "flexible"@ + seq!['"']);
}

proof fn lemma_quests_read(
    c: quest::ChapterModel,
    numbers: Seq<(Seq<char>, import::ReadingModel)>,
)
    requires
        is_storable_chapter(c),
    ensures
        layout_laws::reads(
            layout::rows(export::quest_texts(c.quests, numbers), 1),
            notation::Node::List(quest_nodes(c.quests, numbers)),
        ),
{
    let texts = export::quest_texts(c.quests, numbers);
    assert forall|i: int| 0 <= i < texts.len() implies layout_laws::reads(
        #[trigger] texts[i],
        quest_nodes(c.quests, numbers)[i],
    ) by {
        saved_quests::lemma_quest_reads(c.quests[i], numbers);
    }
    layout_laws::lemma_rows_read(texts, quest_nodes(c.quests, numbers), 1);
}

proof fn lemma_chapter_reads(
    c: quest::ChapterModel,
    numbers: Seq<(Seq<char>, import::ReadingModel)>,
)
    requires
        is_storable_chapter(c),
    ensures
        layout_laws::reads(
            layout::block(export::chapter_lines(c, numbers), 0),
            chapter_node(c, numbers),
        ),
{
    saved_quests::lemma_extra_lines_read(c.extra, import::managed_by(import::Owner::Chapter));
    lemma_chapter_names();
    lemma_defaults_read();
    lemma_quests_read(c, numbers);
    layout_laws::lemma_in_quotes_reads(c.filename);
    layout_laws::lemma_in_quotes_reads(group_name(c.group));
    layout_laws::lemma_in_quotes_reads(c.id);
    layout_laws::lemma_in_quotes_reads(c.title);
    layout_laws::lemma_signed_reads(c.order_index as int);
    saved_fields::lemma_matched();
    assert(saved_fields::matched(export::chapter_lines(c, numbers), chapter_fields(c, numbers)));
    reveal(saved_fields::matched);
    layout_laws::lemma_block_reads(
        export::chapter_lines(c, numbers),
        chapter_fields(c, numbers),
        0,
    );
}

// ---------------------------------------------------------------------------
// The value is read as the chapter
// ---------------------------------------------------------------------------

/// The value of a field of a chapter that was written.
spec fn chapter_value(
    c: quest::ChapterModel,
    numbers: Seq<(Seq<char>, import::ReadingModel)>,
    k: Seq<char>,
) -> Option<notation::Node> {
    if "title"@ == k {
        Some(notation::Node::Scalar(c.title))
    } else if "quests"@ == k {
        Some(notation::Node::List(quest_nodes(c.quests, numbers)))
    } else if !table::has_key(c.extra, "quest_links"@) && "quest_links"@ == k {
        Some(notation::Node::List(Seq::empty()))
    } else if !table::has_key(c.extra, "progression_mode"@) && "progression_mode"@ == k {
        Some(notation::Node::Scalar("flexible"@))
    } else if "order_index"@ == k {
        Some(notation::Node::Scalar(compose::signed_decimal(c.order_index as int)))
    } else if "id"@ == k {
        Some(notation::Node::Scalar(c.id))
    } else if "group"@ == k {
        Some(notation::Node::Scalar(group_name(c.group)))
    } else if "filename"@ == k {
        Some(notation::Node::Scalar(c.filename))
    } else if !table::has_key(c.extra, "default_quest_shape"@) && "default_quest_shape"@ == k {
        Some(notation::Node::Scalar(Seq::empty()))
    } else if !table::has_key(c.extra, "default_hide_dependency_lines"@)
        && "default_hide_dependency_lines"@ == k {
        Some(notation::Node::Scalar("false"@))
    } else {
        saved_fields::last_value(c.extra, k)
    }
}

proof fn lemma_chapter_value(
    c: quest::ChapterModel,
    numbers: Seq<(Seq<char>, import::ReadingModel)>,
    k: Seq<char>,
)
    ensures
        snbt::field(chapter_node(c, numbers), k) == chapter_value(c, numbers, k),
{
    saved_fields::lemma_assembled(chapter_fields(c, numbers));
    saved_fields::lemma_last_values();
}

/// In ordered fields the last value of a name is the one that is found.
proof fn lemma_last_is_found(extra: Seq<(Seq<char>, notation::Node)>, k: Seq<char>)
    requires
        table::ordered(extra),
    ensures
        saved_fields::last_value(extra, k) == table::lookup(extra, k),
{
    saved_quests::lemma_assembled_ordered(extra);
    saved_fields::lemma_assembled(extra);
}

/// The fields that a chapter itself holds are found in its value.
proof fn lemma_fields_in_chapter(
    c: quest::ChapterModel,
    numbers: Seq<(Seq<char>, import::ReadingModel)>,
)
    ensures
        ({
            let n = chapter_node(c, numbers);
            &&& snbt::field(n, "id"@) == Some(notation::Node::Scalar(c.id))
            &&& snbt::field(n, "filename"@) == Some(notation::Node::Scalar(c.filename))
            &&& snbt::field(n, "title"@) == Some(notation::Node::Scalar(c.title))
            &&& snbt::field(n, "group"@) == Some(notation::Node::Scalar(group_name(c.group)))
            &&& snbt::field(n, "order_index"@) == Some(
                notation::Node::Scalar(compose::signed_decimal(c.order_index as int)),
            )
            &&& snbt::field(n, "quests"@) == Some(
                notation::Node::List(quest_nodes(c.quests, numbers)),
            )
        }),
{
    saved_quests::lemma_chapter_marks();
    lemma_chapter_value(c, numbers, "id"@);
    lemma_chapter_value(c, numbers, "filename"@);
    lemma_chapter_value(c, numbers, "title"@);
    lemma_chapter_value(c, numbers, "group"@);
    lemma_chapter_value(c, numbers, "order_index"@);
    lemma_chapter_value(c, numbers, "quests"@);
}

/// The fields that a chapter does not hold itself are those that it kept, and defaults for the
/// missing ones.
proof fn lemma_kept_in_chapter(
    c: quest::ChapterModel,
    numbers: Seq<(Seq<char>, import::ReadingModel)>,
    key: Seq<char>,
)
    requires
        is_storable_chapter(c),
        !import::is_chapter_key(key),
    ensures
        snbt::field(chapter_node(c, numbers), key) == (match table::lookup(c.extra, key) {
            Some(n) => Some(n),
            None => default_field(key),
        }),
{
    saved_quests::lemma_chapter_marks();
    lemma_chapter_value(c, numbers, key);
    lemma_last_is_found(c.extra, key);
    table::lemma_lookup_some(c.extra, key);
}

/// Of ordered fields those that the owner does not hold are found as before, and no others.
proof fn lemma_other_found(
    s: Seq<(Seq<char>, notation::Node)>,
    managed: spec_fn(Seq<char>) -> bool,
    key: Seq<char>,
)
    requires
        table::ordered(s),
    ensures
        table::ordered(import::other_fields(s, managed)),
        forall|i: int|
            0 <= i < import::other_fields(s, managed).len() ==> s.contains(
                #[trigger] import::other_fields(s, managed)[i],
            ),
        saved_fields::last_value(import::other_fields(s, managed), key) == (if managed(key) {
            None
        } else {
            saved_fields::last_value(s, key)
        }),
    decreases s.len(),
{
    let r = import::other_fields(s, managed);
    if s.len() > 0 {
        let front = s.drop_last();
        let before = import::other_fields(front, managed);
        assert forall|i: int, j: int| 0 <= i < j < front.len() implies text::precedes(
            #[trigger] front[i].0,
            #[trigger] front[j].0,
        ) by {
            assert(front[i] == s[i] && front[j] == s[j]);
        }
        lemma_other_found(front, managed, key);
        assert forall|i: int| 0 <= i < before.len() implies s.contains(#[trigger] before[i])
            && text::precedes(before[i].0, s.last().0) by {
            assert(front.contains(before[i]));
            let k = choose|k: int| 0 <= k < front.len() && front[k] == before[i];
            assert(s[k] == before[i]);
            assert(text::precedes(s[k].0, s[s.len() - 1].0));
        }
        if managed(s.last().0) {
            assert(r == before);
        } else {
            assert(r.drop_last() =~= before);
            assert(r.last() == s.last());
            assert forall|i: int| 0 <= i < r.len() implies s.contains(#[trigger] r[i]) by {
                if i < before.len() {
                    assert(r[i] == before[i]);
                } else {
                    assert(r[i] == s[s.len() - 1]);
                }
            }
            assert forall|i: int, j: int| 0 <= i < j < r.len() implies text::precedes(
                #[trigger] r[i].0,
                #[trigger] r[j].0,
            ) by {
                assert(r[i] == before[i]);
                if j < before.len() {
                    assert(r[j] == before[j]);
                }
            }
        }
    }
}

/// The quests of a chapter are read from their values.
proof fn lemma_quests_of_nodes(
    quests: Seq<quest::QuestModel>,
    numbers: Seq<(Seq<char>, import::ReadingModel)>,
)
    requires
        forall|i: int|
            0 <= i < quests.len() ==> saved_quests::is_storable_quest(#[trigger] quests[i]),
    ensures
        import::quests_in(quest_nodes(quests, numbers), numbers) == Seq::new(
            quests.len(),
            |i: int| saved_quests::settled_quest(quests[i], numbers),
        ),
    decreases quests.len(),
{
    let nodes = quest_nodes(quests, numbers);
    let all = Seq::new(quests.len(), |i: int| saved_quests::settled_quest(quests[i], numbers));
    if quests.len() == 0 {
        assert(import::quests_in(nodes, numbers) =~= all);
    } else {
        let front = quests.drop_last();
        assert forall|i: int| 0 <= i < front.len() implies saved_quests::is_storable_quest(
            #[trigger] front[i],
        ) by {
            assert(front[i] == quests[i]);
        }
        lemma_quests_of_nodes(front, numbers);
        assert(nodes.drop_last() =~= quest_nodes(front, numbers));
        saved_quests::lemma_quest_read(quests[quests.len() - 1], numbers);
        assert(import::quests_in(nodes, numbers) =~= all);
    }
}

// ---------------------------------------------------------------------------
// The laws
// ---------------------------------------------------------------------------

/// Reading the text of a quest gives the quest back as it has settled: every text, dependency,
/// task, reward and kept field of it, and its numbers as far as their texts say them. The values
/// that it keeps beside its description, its icon, its tasks and its rewards are now the ones
/// that were written.
pub proof fn law_saved_quest_is_read_back(
    q: quest::QuestModel,
    numbers: Seq<(Seq<char>, import::ReadingModel)>,
)
    requires
        saved_quests::is_storable_quest(q),
    ensures
        notation::document(export::quest_text(q, numbers) + "\n"@) matches Ok(n)
            && import::quest_of(n, numbers) == Some(saved_quests::settled_quest(q, numbers)),
{
    saved_quests::lemma_quest_reads(q, numbers);
    layout_laws::lemma_reads_document(
        export::quest_text(q, numbers),
        saved_quests::quest_node(q, numbers),
    );
    saved_quests::lemma_quest_read(q, numbers);
}

/// Writing and reading a quest loses nothing of it where its settings have a width that is not
/// below zero and names for their rules, where the texts of its place, its size and its scale are
/// read as those numbers, and where no item was changed that alone held the count.
pub proof fn law_lasting_quest_loses_nothing(
    q: quest::QuestModel,
    numbers: Seq<(Seq<char>, import::ReadingModel)>,
)
    requires
        saved_quests::is_lasting_quest(q, numbers),
    ensures
        ({
            let r = saved_quests::settled_quest(q, numbers);
            &&& r.tasks.len() == q.tasks.len()
            &&& forall|i: int|
                0 <= i < q.tasks.len() ==> #[trigger] r.tasks[i] == saved_entries::task_read_from(
                    q.tasks[i],
                    saved_entries::task_node(q.tasks[i], numbers),
                )
            &&& r.rewards.len() == q.rewards.len()
            &&& forall|i: int|
                0 <= i < q.rewards.len() ==> #[trigger] r.rewards[i]
                    == saved_entries::reward_read_from(
                    q.rewards[i],
                    saved_entries::reward_node(q.rewards[i], numbers),
                )
            &&& r == (quest::QuestModel {
                description_raw: r.description_raw,
                icon_raw: r.icon_raw,
                tasks: r.tasks,
                rewards: r.rewards,
                ..q
            })
        }),
{
    let r = saved_quests::settled_quest(q, numbers);
    assert forall|i: int| 0 <= i < q.tasks.len() implies #[trigger] r.tasks[i]
        == saved_entries::task_read_from(
        q.tasks[i],
        saved_entries::task_node(q.tasks[i], numbers),
    ) by {
        assert(saved_entries::is_lasting_task(q.tasks[i], numbers));
    }
    assert forall|i: int| 0 <= i < q.rewards.len() implies #[trigger] r.rewards[i]
        == saved_entries::reward_read_from(
        q.rewards[i],
        saved_entries::reward_node(q.rewards[i], numbers),
    ) by {
        assert(saved_entries::is_lasting_reward(q.rewards[i], numbers));
    }
    assert(r.settings =~= q.settings);
}

/// The group of a chapter as it is read: a group without a name is none.
pub open spec fn group_read(group: Option<Seq<char>>) -> Option<Seq<char>> {
    match group {
        Some(name) => if name.len() == 0 {
            None
        } else {
            Some(name)
        },
        None => None,
    }
}

/// The chapter as it is after it was written and read.
pub open spec fn settled_chapter(
    c: quest::ChapterModel,
    numbers: Seq<(Seq<char>, import::ReadingModel)>,
) -> quest::ChapterModel {
    import::chapter_of(chapter_node(c, numbers), None, 0, numbers)
}

/// Reading the file of a chapter gives the chapter back, whatever the file is called and
/// wherever it stands among the files: its id, name, title, group, place in the order, and its
/// quests as they have settled. The fields
/// that it only keeps are kept, and get defaults where the game expects a field.
pub proof fn law_saved_chapter_is_read_back(
    c: quest::ChapterModel,
    stem: Option<Seq<char>>,
    index: int,
    numbers: Seq<(Seq<char>, import::ReadingModel)>,
)
    requires
        is_storable_chapter(c),
    ensures
        notation::document(export::chapter_text(c, numbers)) == Ok::<
            notation::Node,
            notation::Fault,
        >(chapter_node(c, numbers)),
        ({
            let r = import::chapter_of(chapter_node(c, numbers), stem, index, numbers);
            &&& r == settled_chapter(c, numbers)
            &&& r.id == c.id
            &&& r.filename == c.filename
            &&& r.title == c.title
            &&& r.group == group_read(c.group)
            &&& r.order_index == c.order_index
            &&& r.quests == Seq::new(
                c.quests.len(),
                |i: int| saved_quests::settled_quest(c.quests[i], numbers),
            )
            &&& table::ordered(r.extra)
            &&& forall|key: Seq<char>| #[trigger]
                table::lookup(r.extra, key) == (if import::is_chapter_key(key) {
                    None
                } else {
                    match table::lookup(c.extra, key) {
                        Some(n) => Some(n),
                        None => default_field(key),
                    }
                })
        }),
{
    let n = chapter_node(c, numbers);
    let r = import::chapter_of(n, stem, index, numbers);
    lemma_chapter_reads(c, numbers);
    layout_laws::lemma_reads_document(layout::block(export::chapter_lines(c, numbers), 0), n);
    lemma_fields_in_chapter(c, numbers);
    lemma_quests_of_nodes(c.quests, numbers);
    digits::lemma_whole_signed(c.order_index as int);
    let entries = layout_laws::assembled(chapter_fields(c, numbers));
    let managed = import::managed_by(import::Owner::Chapter);
    saved_fields::lemma_assembled(chapter_fields(c, numbers));
    assert forall|key: Seq<char>| #[trigger]
        table::lookup(r.extra, key) == (if import::is_chapter_key(key) {
            None
        } else {
            match table::lookup(c.extra, key) {
                Some(n) => Some(n),
                None => default_field(key),
            }
        }) by {
        lemma_other_found(entries, managed, key);
        lemma_last_is_found(r.extra, key);
        lemma_last_is_found(entries, key);
        if !import::is_chapter_key(key) {
            lemma_kept_in_chapter(c, numbers, key);
        }
    }
    lemma_other_found(entries, managed, Seq::empty());
}

spec fn group_nodes(groups: Seq<quest::GroupModel>) -> Seq<notation::Node> {
    Seq::new(
        groups.len(),
        |i: int|
            notation::Node::Compound(
                layout_laws::assembled(layout_laws::group_fields(groups[i].id, groups[i].title)),
            ),
    )
}

/// The value of a written group is read as the group.
proof fn lemma_group_read(g: quest::GroupModel)
    ensures
        import::group_of(
            notation::Node::Compound(
                layout_laws::assembled(layout_laws::group_fields(g.id, g.title)),
            ),
        ) == Some(g),
{
    let fields = layout_laws::group_fields(g.id, g.title);
    saved_fields::lemma_assembled(fields);
    reveal_with_fuel(saved_fields::last_value, 3);
    assert("id"@ != "title"@) by {
        reveal_strlit("id");
        reveal_strlit("title");
        assert("id"@.len() == 2 && "title"@.len() == 5);
    }
    assert(fields.drop_last().last() == fields[0]);
}

proof fn lemma_groups_of_nodes(groups: Seq<quest::GroupModel>)
    ensures
        import::groups_of(group_nodes(groups)) == groups,
    decreases groups.len(),
{
    let nodes = group_nodes(groups);
    if groups.len() == 0 {
        assert(import::groups_of(nodes) =~= groups);
    } else {
        lemma_groups_of_nodes(groups.drop_last());
        assert(nodes.drop_last() =~= group_nodes(groups.drop_last()));
        lemma_group_read(groups.last());
        assert(groups.drop_last().push(groups.last()) =~= groups);
    }
}

/// Reading the file of the groups gives the groups back.
pub proof fn law_saved_groups_are_read_back(groups: Seq<quest::GroupModel>)
    ensures
        notation::document(export::groups_text(groups)) matches Ok(n) && import::groups_of(
            import::items_at(n, "chapter_groups"@),
        ) == groups,
{
    let texts = export::group_texts(groups);
    let nodes = group_nodes(groups);
    assert forall|i: int| 0 <= i < texts.len() implies layout_laws::reads(
        #[trigger] texts[i],
        nodes[i],
    ) by {
        layout_laws::lemma_group_reads(groups[i].id, groups[i].title);
    }
    layout_laws::lemma_rows_read(texts, nodes, 1);
    let lines = seq![("chapter_groups"@, layout::rows(texts, 1))];
    let fields = seq![("chapter_groups"@, notation::Node::List(nodes))];
    reveal_strlit("chapter_groups");
    saved_fields::lemma_bare_key("chapter_groups"@);
    assert(layout_laws::lines_read(lines, fields));
    layout_laws::lemma_block_reads(lines, fields, 0);
    let n = notation::Node::Compound(layout_laws::assembled(fields));
    layout_laws::lemma_reads_document(layout::block(lines, 0), n);
    saved_fields::lemma_assembled(fields);
    saved_fields::lemma_last_values();
    lemma_groups_of_nodes(groups);
}

spec fn data_fields(title: Seq<char>, grid_scale: quest::NumberModel) -> Seq<
    (Seq<char>, notation::Node),
> {
    seq![
        ("default_autoclaim_rewards"@, notation::Node::Scalar("disabled"@)),
        ("default_consume_items"@, notation::Node::Scalar("false"@)),
        ("default_quest_shape"@, notation::Node::Scalar("circle"@)),
        ("grid_scale"@, saved_fields::measure_node(grid_scale)),
        ("progression_mode"@, notation::Node::Scalar("flexible"@)),
        ("title"@, notation::Node::Scalar(title)),
        ("version"@, notation::Node::Scalar("13"@)),
    ]
}

/// The names of the fields of a book are read as they stand.
proof fn lemma_data_names()
    ensures
        layout_laws::is_bare_key("default_autoclaim_rewards"@),
        layout_laws::is_bare_key("default_consume_items"@),
        layout_laws::is_bare_key("default_quest_shape"@),
        layout_laws::is_bare_key("grid_scale"@),
        layout_laws::is_bare_key("progression_mode"@),
        layout_laws::is_bare_key("title"@),
        layout_laws::is_bare_key("version"@),
{
    reveal_strlit("default_autoclaim_rewards");
    reveal_strlit("default_consume_items");
    reveal_strlit("default_quest_shape");
    reveal_strlit("grid_scale");
    reveal_strlit("progression_mode");
    reveal_strlit("title");
    reveal_strlit("version");
    saved_fields::lemma_bare_key("default_autoclaim_rewards"@);
    saved_fields::lemma_bare_key("default_consume_items"@);
    saved_fields::lemma_bare_key("default_quest_shape"@);
    saved_fields::lemma_bare_key("grid_scale"@);
    saved_fields::lemma_bare_key("progression_mode"@);
    saved_fields::lemma_bare_key("title"@);
    saved_fields::lemma_bare_key("version"@);
}

/// The settings that every book is written with are read.
proof fn lemma_data_words()
    ensures
        layout_laws::reads("\"disabled\""@, notation::Node::Scalar("disabled"@)),
        layout_laws::reads("\"circle\""@, notation::Node::Scalar("circle"@)),
        layout_laws::reads("13"@, notation::Node::Scalar("13"@)),
{
    reveal_strlit("disabled");
    reveal_strlit("\"disabled\"");
    reveal_strlit("circle");
    reveal_strlit("\"circle\"");
    reveal_strlit("13");
    saved_entries::lemma_plain_quotes("disabled"@);
    saved_entries::lemma_plain_quotes("circle"@);
    assert("\"disabled\""@ =~= seq!['"'] + "disabled"@ + seq!['"']);
    assert("\"circle\""@ =~= seq!['"'] + "circle"@ + seq!['"']);
    layout_laws::lemma_literal_reads("13"@);
}

/// Reading the file of the book gives its title back, and its grid as its text is read.
pub proof fn law_saved_data_is_read_back(
    title: Seq<char>,
    grid_scale: quest::NumberModel,
    numbers: Seq<(Seq<char>, import::ReadingModel)>,
)
    requires
        quest::is_plain(grid_scale),
    ensures
        notation::document(export::data_text(title, grid_scale)) matches Ok(n)
            && import::scalar_at(n, "title"@) == Some(title) && import::number_or(
            n,
            "grid_scale"@,
            numbers,
            quest::half(),
        ) == saved_quests::number_read(numbers, grid_scale, quest::half()),
{
    let lines = export::data_lines(title, grid_scale);
    let fields = data_fields(title, grid_scale);
    lemma_data_names();
    lemma_data_words();
    lemma_defaults_read();
    layout_laws::lemma_in_quotes_reads(title);
    saved_fields::lemma_measure_reads(grid_scale);
    assert(layout_laws::lines_read(lines, fields));
    layout_laws::lemma_block_reads(lines, fields, 0);
    let n = notation::Node::Compound(layout_laws::assembled(fields));
    layout_laws::lemma_reads_document(layout::block(lines, 0), n);
    saved_fields::lemma_assembled(fields);
    lemma_last_data(title, grid_scale);
}

proof fn lemma_last_data(title: Seq<char>, grid_scale: quest::NumberModel)
    ensures
        saved_fields::last_value(data_fields(title, grid_scale), "title"@) == Some(
            notation::Node::Scalar(title),
        ),
        saved_fields::last_value(data_fields(title, grid_scale), "grid_scale"@) == Some(
            saved_fields::measure_node(grid_scale),
        ),
{
    let f = data_fields(title, grid_scale);
    reveal_strlit("title");
    reveal_strlit("version");
    reveal_strlit("progression_mode");
    reveal_strlit("grid_scale");
    assert("title"@.len() == 5 && "version"@.len() == 7 && "progression_mode"@.len() == 16
        && "grid_scale"@.len() == 10);
    reveal_with_fuel(saved_fields::last_value, 5);
    assert(f.drop_last().last() == f[5]);
    assert(f.drop_last().drop_last().last() == f[4]);
    assert(f.drop_last().drop_last().drop_last().last() == f[3]);
}

/// The texts of the files of chapters.
pub open spec fn chapter_texts(
    chapters: Seq<quest::ChapterModel>,
    numbers: Seq<(Seq<char>, import::ReadingModel)>,
) -> Seq<Seq<char>> {
    Seq::new(chapters.len(), |i: int| export::chapter_text(chapters[i], numbers))
}

/// The files of a book hold what was written of it: its data, its groups, and its chapters in
/// whatever order their files are found.
pub open spec fn holds_book(
    parts: editor::PartsModel,
    files: Seq<Seq<char>>,
    book: editor::BookModel,
    numbers: Seq<(Seq<char>, import::ReadingModel)>,
) -> bool {
    &&& notation::document(export::data_text(book.title, book.grid_scale)) == Ok::<
        notation::Node,
        notation::Fault,
    >(parts.data)
    &&& parts.groups matches Some(groups) && notation::document(export::groups_text(book.groups))
        == Ok::<notation::Node, notation::Fault>(groups)
    &&& files.to_multiset() == chapter_texts(book.chapters, numbers).to_multiset()
    &&& parts.chapters.len() == files.len()
    &&& forall|i: int|
        0 <= i < files.len() ==> notation::document(#[trigger] files[i]) == Ok::<
            notation::Node,
            notation::Fault,
        >(parts.chapters[i].value)
    &&& parts.preserved_files.to_multiset() == book.preserved_files.to_multiset()
}

/// All chapters of a book can be written.
pub open spec fn is_storable_book(book: editor::BookModel) -> bool {
    forall|i: int|
        0 <= i < book.chapters.len() ==> is_storable_chapter(#[trigger] book.chapters[i])
}

/// The chapters of a book as they are after they were written and read.
pub open spec fn settled_chapters(
    book: editor::BookModel,
    numbers: Seq<(Seq<char>, import::ReadingModel)>,
) -> Seq<quest::ChapterModel> {
    Seq::new(book.chapters.len(), |i: int| settled_chapter(book.chapters[i], numbers))
}

/// The order of the chapters is the one of their indexes, and no two have the same.
pub open spec fn are_numbered(chapters: Seq<quest::ChapterModel>) -> bool {
    forall|i: int, j: int|
        0 <= i < j < chapters.len() ==> (#[trigger] chapters[i]).order_index < (
        #[trigger] chapters[j]).order_index
}

/// The order of the chapters is not against the one of their indexes.
pub open spec fn are_in_line(chapters: Seq<quest::ChapterModel>) -> bool {
    forall|i: int, j: int|
        0 <= i < j < chapters.len() ==> (#[trigger] chapters[i]).order_index <= (
        #[trigger] chapters[j]).order_index
}

/// What is read from the files of chapters is what was written to them.
pub proof fn lemma_chapters_read(
    book: editor::BookModel,
    files: Seq<Seq<char>>,
    parts: editor::PartsModel,
    numbers: Seq<(Seq<char>, import::ReadingModel)>,
)
    requires
        is_storable_book(book),
        holds_book(parts, files, book, numbers),
    ensures
        editor::chapters_in(parts.chapters, numbers).to_multiset() == settled_chapters(
            book,
            numbers,
        ).to_multiset(),
        files == chapter_texts(book.chapters, numbers) ==> editor::chapters_in(
            parts.chapters,
            numbers,
        ) == settled_chapters(book, numbers),
        forall|i: int|
            0 <= i < book.chapters.len() ==> (#[trigger] settled_chapters(
                book,
                numbers,
            )[i]).order_index == book.chapters[i].order_index,
{
    broadcast use vstd::seq_lib::group_to_multiset_ensures;

    let texts = chapter_texts(book.chapters, numbers);
    let f = |t: Seq<char>|
        import::chapter_of(notation::document(t)->Ok_0, None, 0, numbers);
    let read = editor::chapters_in(parts.chapters, numbers);
    let all = settled_chapters(book, numbers);
    assert forall|i: int| 0 <= i < book.chapters.len() implies all[i] == f(#[trigger] texts[i])
        && all[i].order_index == book.chapters[i].order_index by {
        law_saved_chapter_is_read_back(book.chapters[i], None, 0, numbers);
    }
    assert forall|i: int| 0 <= i < book.chapters.len() implies (#[trigger] all[i]).order_index
        == book.chapters[i].order_index by {
        assert(all[i] == f(texts[i]));
    }
    assert(texts.map_values(f) =~= all);
    assert forall|i: int| 0 <= i < files.len() implies read[i] == f(#[trigger] files[i]) by {
        assert(files.contains(files[i]));
        assert(files.to_multiset().count(files[i]) > 0);
        assert(texts.contains(files[i]));
        let k = choose|k: int| 0 <= k < texts.len() && texts[k] == files[i];
        law_saved_chapter_is_read_back(
            book.chapters[k],
            parts.chapters[i].stem,
            (i as i32) as int,
            numbers,
        );
        law_saved_chapter_is_read_back(book.chapters[k], None, 0, numbers);
    }
    assert(files.map_values(f) =~= read);
    order::lemma_mapped_elements(files, texts, f);
}

/// Reading the files of a book, in whatever order the chapters are found, gives the book back:
/// its title, its groups, its grid as its text is read, its kept files, and all its chapters as
/// they have settled. The chapters are in their order again where no two have one index, or where
/// those that have one are found in their order.
pub proof fn law_saved_book_is_read_back(
    book: editor::BookModel,
    files: Seq<Seq<char>>,
    parts: editor::PartsModel,
    numbers: Seq<(Seq<char>, import::ReadingModel)>,
)
    requires
        quest::is_plain(book.grid_scale),
        is_storable_book(book),
        holds_book(parts, files, book, numbers),
    ensures
        ({
            let r = editor::book_of(parts, numbers);
            &&& r.title == book.title
            &&& r.grid_scale == saved_quests::number_read(
                numbers,
                book.grid_scale,
                quest::half(),
            )
            &&& r.groups == book.groups
            &&& r.preserved_files.to_multiset() == book.preserved_files.to_multiset()
            &&& r.chapters.to_multiset() == Seq::new(
                book.chapters.len(),
                |i: int| settled_chapter(book.chapters[i], numbers),
            ).to_multiset()
            &&& are_numbered(book.chapters) || (are_in_line(book.chapters) && files
                == chapter_texts(book.chapters, numbers)) ==> r.chapters == Seq::new(
                book.chapters.len(),
                |i: int| settled_chapter(book.chapters[i], numbers),
            )
        }),
{
    law_saved_data_is_read_back(book.title, book.grid_scale, numbers);
    law_saved_groups_are_read_back(book.groups);
    lemma_chapters_read(book, files, parts, numbers);
    let read = editor::chapters_in(parts.chapters, numbers);
    let all = settled_chapters(book, numbers);
    let before = order::ranking::<Chapter>();
    assert(all =~= Seq::new(
        book.chapters.len(),
        |i: int| settled_chapter(book.chapters[i], numbers),
    ));
    order::lemma_sorted_keeps(read, before);
    order::lemma_sorted_keeps(parts.preserved_files, order::ranking::<editor::PreservedFile>());
    assert(order::is_ranking(before));
    if are_numbered(book.chapters) {
        assert forall|i: int, j: int| 0 <= i < j < all.len() implies before(
            #[trigger] all[i],
            #[trigger] all[j],
        ) by {
            assert(book.chapters[i].order_index < book.chapters[j].order_index);
        }
        order::lemma_sorted_unique(read, all, before);
    } else if are_in_line(book.chapters) && files == chapter_texts(book.chapters, numbers) {
        assert forall|i: int, j: int| 0 <= i < j < all.len() implies !before(
            #[trigger] all[j],
            #[trigger] all[i],
        ) by {
            assert(book.chapters[i].order_index <= book.chapters[j].order_index);
        }
        order::lemma_sorted_stays(read, before);
    }
}

// ---------------------------------------------------------------------------
// What was read can be saved
// ---------------------------------------------------------------------------

proof fn lemma_field_well_formed(n: notation::Node, key: Seq<char>)
    requires
        notation::well_formed(n),
    ensures
        snbt::field(n, key) matches Some(found) ==> notation::well_formed(found),
{
    if let notation::Node::Compound(entries) = n {
        table::lemma_lookup_some(entries, key);
        if table::has_key(entries, key) {
            let k = choose|k: int| 0 <= k < entries.len() && #[trigger] entries[k].0 == key;
            notation_laws::lemma_well_formed_field(entries, k);
            table::lemma_lookup_at(entries, k);
        }
    }
}

proof fn lemma_read_tasks_are_sound(
    values: Seq<notation::Node>,
    numbers: Seq<(Seq<char>, import::ReadingModel)>,
    i: int,
)
    requires
        notation::well_formed(notation::Node::List(values)),
        0 <= i < import::tasks_of(values, numbers).len(),
    ensures
        saved_entries::is_lasting_task(import::tasks_of(values, numbers)[i], numbers),
    decreases values.len(),
{
    if values.len() > 0 {
        let front = values.drop_last();
        notation_laws::lemma_well_formed_item(values, values.len() - 1);
        assert(notation::well_formed(notation::Node::List(front))) by {
            assert forall|k: int| 0 <= k < front.len() implies notation::well_formed(
                #[trigger] front[k],
            ) by {
                notation_laws::lemma_well_formed_item(values, k);
            }
        }
        if i < import::tasks_of(front, numbers).len() {
            lemma_read_tasks_are_sound(front, numbers, i);
        }
    }
}

proof fn lemma_read_rewards_are_sound(
    values: Seq<notation::Node>,
    numbers: Seq<(Seq<char>, import::ReadingModel)>,
    i: int,
)
    requires
        notation::well_formed(notation::Node::List(values)),
        0 <= i < import::rewards_of(values, numbers).len(),
    ensures
        saved_entries::is_lasting_reward(import::rewards_of(values, numbers)[i], numbers),
    decreases values.len(),
{
    if values.len() > 0 {
        let front = values.drop_last();
        notation_laws::lemma_well_formed_item(values, values.len() - 1);
        assert(notation::well_formed(notation::Node::List(front))) by {
            assert forall|k: int| 0 <= k < front.len() implies notation::well_formed(
                #[trigger] front[k],
            ) by {
                notation_laws::lemma_well_formed_item(values, k);
            }
        }
        if i < import::rewards_of(front, numbers).len() {
            lemma_read_rewards_are_sound(front, numbers, i);
        }
    }
}

proof fn lemma_other_not_managed(
    s: Seq<(Seq<char>, notation::Node)>,
    managed: spec_fn(Seq<char>) -> bool,
    i: int,
)
    requires
        0 <= i < import::other_fields(s, managed).len(),
    ensures
        !managed(import::other_fields(s, managed)[i].0),
        s.contains(import::other_fields(s, managed)[i]),
    decreases s.len(),
{
    if s.len() > 0 {
        let front = s.drop_last();
        let before = import::other_fields(front, managed);
        if i < before.len() {
            lemma_other_not_managed(front, managed, i);
            let k = choose|k: int| 0 <= k < front.len() && front[k] == before[i];
            assert(s[k] == before[i]);
        } else {
            assert(s[s.len() - 1] == s.last());
        }
    }
}

/// A quest that was read from a file keeps what it has to keep so that it can be written and
/// read again: the values of its tasks and rewards, those of its description and icon, and the
/// fields that it does not hold itself, in order.
pub proof fn law_read_quest_keeps_its_values(
    n: notation::Node,
    numbers: Seq<(Seq<char>, import::ReadingModel)>,
)
    requires
        notation::well_formed(n),
    ensures
        import::quest_of(n, numbers) matches Some(q) ==> {
            &&& table::ordered(q.extra)
            &&& forall|i: int|
                0 <= i < q.extra.len() ==> !import::is_quest_key((#[trigger] q.extra[i]).0)
                    && notation::well_formed(q.extra[i].1)
            &&& saved_quests::is_well_formed_or_none(q.description_raw)
            &&& saved_quests::is_well_formed_or_none(q.icon_raw)
            &&& forall|i: int|
                0 <= i < q.tasks.len() ==> saved_entries::is_lasting_task(
                    #[trigger] q.tasks[i],
                    numbers,
                )
            &&& forall|i: int|
                0 <= i < q.rewards.len() ==> saved_entries::is_lasting_reward(
                    #[trigger] q.rewards[i],
                    numbers,
                )
        },
{
    if let Some(q) = import::quest_of(n, numbers) {
        let entries = n->Compound_0;
        let managed = import::managed_by(import::Owner::Quest);
        lemma_field_well_formed(n, "description"@);
        lemma_field_well_formed(n, "icon"@);
        lemma_field_well_formed(n, "tasks"@);
        lemma_field_well_formed(n, "rewards"@);
        lemma_other_found(entries, managed, Seq::empty());
        assert forall|i: int| 0 <= i < q.extra.len() implies !import::is_quest_key(
            (#[trigger] q.extra[i]).0,
        ) && notation::well_formed(q.extra[i].1) by {
            lemma_other_not_managed(entries, managed, i);
            let k = choose|k: int| 0 <= k < entries.len() && entries[k] == q.extra[i];
            notation_laws::lemma_well_formed_field(entries, k);
        }
        let tasks = import::items_at(n, "tasks"@);
        let rewards = import::items_at(n, "rewards"@);
        assert(notation::well_formed(notation::Node::List(tasks)));
        assert(notation::well_formed(notation::Node::List(rewards)));
        assert forall|i: int| 0 <= i < q.tasks.len() implies saved_entries::is_lasting_task(
            #[trigger] q.tasks[i],
            numbers,
        ) by {
            lemma_read_tasks_are_sound(tasks, numbers, i);
        }
        assert forall|i: int| 0 <= i < q.rewards.len() implies saved_entries::is_lasting_reward(
            #[trigger] q.rewards[i],
            numbers,
        ) by {
            lemma_read_rewards_are_sound(rewards, numbers, i);
        }
    }
}

/// Fields that are only kept have names that can stand without quotes.
pub open spec fn have_bare_names(extra: Seq<(Seq<char>, notation::Node)>) -> bool {
    forall|i: int| 0 <= i < extra.len() ==> layout_laws::is_bare_key((#[trigger] extra[i]).0)
}

/// A chapter that was read from a file can be written, where the names of the fields that it and
/// its quests only keep can stand without quotes.
pub proof fn law_read_chapter_is_storable(
    n: notation::Node,
    stem: Option<Seq<char>>,
    index: int,
    numbers: Seq<(Seq<char>, import::ReadingModel)>,
)
    requires
        notation::well_formed(n),
        ({
            let c = import::chapter_of(n, stem, index, numbers);
            &&& have_bare_names(c.extra)
            &&& forall|i: int|
                0 <= i < c.quests.len() ==> have_bare_names((#[trigger] c.quests[i]).extra)
            &&& quest::have_plain_numbers(c.quests)
        }),
    ensures
        is_storable_chapter(import::chapter_of(n, stem, index, numbers)),
{
    let c = import::chapter_of(n, stem, index, numbers);
    let managed = import::managed_by(import::Owner::Chapter);
    if let notation::Node::Compound(entries) = n {
        lemma_other_found(entries, managed, Seq::empty());
        assert forall|i: int| 0 <= i < c.extra.len() implies layout_laws::is_bare_key(
            (#[trigger] c.extra[i]).0,
        ) && !managed(c.extra[i].0) && notation::well_formed(c.extra[i].1) by {
            lemma_other_not_managed(entries, managed, i);
            let k = choose|k: int| 0 <= k < entries.len() && entries[k] == c.extra[i];
            notation_laws::lemma_well_formed_field(entries, k);
        }
    }
    let values = import::items_at(n, "quests"@);
    lemma_field_well_formed(n, "quests"@);
    assert(notation::well_formed(notation::Node::List(values)));
    assert forall|i: int| 0 <= i < c.quests.len() implies saved_quests::is_storable_quest(
        #[trigger] c.quests[i],
    ) by {
        let v = lemma_quest_source(values, numbers, i);
        law_read_quest_keeps_its_values(v, numbers);
        assert(have_bare_names(c.quests[i].extra));
        assert(quest::has_plain_numbers(c.quests[i]));
        let q = c.quests[i];
        let owned = import::managed_by(import::Owner::Quest);
        assert forall|k: int| 0 <= k < q.extra.len() implies layout_laws::is_bare_key(
            (#[trigger] q.extra[k]).0,
        ) && !owned(q.extra[k].0) && notation::well_formed(q.extra[k].1) by {
            assert(!import::is_quest_key(q.extra[k].0));
        }
        assert forall|k: int| 0 <= k < q.tasks.len() implies saved_entries::is_sound_task(
            #[trigger] q.tasks[k],
        ) by {
            assert(saved_entries::is_lasting_task(q.tasks[k], numbers));
        }
        assert forall|k: int| 0 <= k < q.rewards.len() implies saved_entries::is_sound_reward(
            #[trigger] q.rewards[k],
        ) by {
            assert(saved_entries::is_lasting_reward(q.rewards[k], numbers));
        }
    }
}

/// The value that a quest was read from.
proof fn lemma_quest_source(
    values: Seq<notation::Node>,
    numbers: Seq<(Seq<char>, import::ReadingModel)>,
    i: int,
) -> (v: notation::Node)
    requires
        notation::well_formed(notation::Node::List(values)),
        0 <= i < import::quests_in(values, numbers).len(),
    ensures
        notation::well_formed(v),
        import::quest_of(v, numbers) == Some(import::quests_in(values, numbers)[i]),
    decreases values.len(),
{
    let front = values.drop_last();
    let before = import::quests_in(front, numbers);
    if i < before.len() {
        assert(notation::well_formed(notation::Node::List(front))) by {
            assert forall|k: int| 0 <= k < front.len() implies notation::well_formed(
                #[trigger] front[k],
            ) by {
                notation_laws::lemma_well_formed_item(values, k);
            }
        }
        lemma_quest_source(front, numbers, i)
    } else {
        notation_laws::lemma_well_formed_item(values, values.len() - 1);
        values.last()
    }
}

/// Two lists of readings give the values that an entry keeps the same count.
pub open spec fn agree_on(
    raw: Option<notation::Node>,
    a: Seq<(Seq<char>, import::ReadingModel)>,
    b: Seq<(Seq<char>, import::ReadingModel)>,
) -> bool {
    raw matches Some(n) ==> import::item_count_of(n, a) == import::item_count_of(n, b)
}

/// Two lists of readings agree on the items among the tasks and rewards of a quest.
pub open spec fn agree_on_quest(
    q: quest::QuestModel,
    a: Seq<(Seq<char>, import::ReadingModel)>,
    b: Seq<(Seq<char>, import::ReadingModel)>,
) -> bool {
    &&& forall|i: int|
        0 <= i < q.tasks.len() ==> ((#[trigger] q.tasks[i]) matches quest::TaskModel::Item {
            id,
            title,
            item,
            count,
            raw,
        } ==> agree_on(raw, a, b))
    &&& forall|i: int|
        0 <= i < q.rewards.len() ==> ((#[trigger] q.rewards[i]) matches quest::RewardModel::Item {
            id,
            item,
            count,
            raw,
        } ==> agree_on(raw, a, b))
}

/// What is written of a chapter rests on no other readings than those of the counts of its items,
/// so that the readings with which it is saved and those with which it is read again may differ
/// in all else.
pub proof fn law_text_rests_on_counts(
    c: quest::ChapterModel,
    a: Seq<(Seq<char>, import::ReadingModel)>,
    b: Seq<(Seq<char>, import::ReadingModel)>,
)
    requires
        forall|i: int| 0 <= i < c.quests.len() ==> agree_on_quest(#[trigger] c.quests[i], a, b),
    ensures
        export::chapter_text(c, a) == export::chapter_text(c, b),
{
    assert forall|i: int| 0 <= i < c.quests.len() implies #[trigger] export::quest_text(
        c.quests[i],
        a,
    ) == export::quest_text(c.quests[i], b) by {
        let q = c.quests[i];
        assert(agree_on_quest(q, a, b));
        assert forall|k: int| 0 <= k < q.tasks.len() implies #[trigger] export::task_text(
            q.tasks[k],
            a,
        ) == export::task_text(q.tasks[k], b) by {}
        assert forall|k: int| 0 <= k < q.rewards.len() implies #[trigger] export::reward_text(
            q.rewards[k],
            a,
        ) == export::reward_text(q.rewards[k], b) by {}
        assert(export::task_texts(q.tasks, a) =~= export::task_texts(q.tasks, b));
        assert(export::reward_texts(q.rewards, a) =~= export::reward_texts(q.rewards, b));
    }
    assert(export::quest_texts(c.quests, a) =~= export::quest_texts(c.quests, b));
}

} // verus!
