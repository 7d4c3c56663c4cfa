//! What the texts tell that are written for people.

use crate::book;
use crate::book::QuestBook;
use crate::book_laws;
use crate::captions;
use crate::compose;
use crate::diagnostics;
use crate::editor;
use crate::import::ImportReport;
use crate::labels;
use crate::order;
use crate::picks;
use crate::quest;
use crate::quest::Tristate;
use crate::search;
use crate::session;
use crate::session::LogLevel;
use crate::session::SessionModel;
use crate::snbt;
use crate::text;
use crate::translation;
use vstd::prelude::*;

verus! {

// ---------------------------------------------------------------------------
// Parts of texts
// ---------------------------------------------------------------------------

proof fn lemma_longer(a: Seq<char>, b: Seq<char>)
    ensures
        forall|p: Seq<char>| text::has_text(a, p) ==> #[trigger] text::has_text(a + b, p),
        forall|p: Seq<char>| text::has_text(b, p) ==> #[trigger] text::has_text(a + b, p),
{
    assert forall|p: Seq<char>| text::has_text(a, p) implies #[trigger] text::has_text(
        a + b,
        p,
    ) by {
        let i = choose|i: int| text::stands_at(a, p, i);
        assert((a + b).subrange(i, i + p.len()) =~= a.subrange(i, i + p.len()));
        assert(text::stands_at(a + b, p, i));
    }
    assert forall|p: Seq<char>| text::has_text(b, p) implies #[trigger] text::has_text(
        a + b,
        p,
    ) by {
        let i = choose|i: int| text::stands_at(b, p, i);
        assert((a + b).subrange(a.len() + i, a.len() + i + p.len()) =~= b.subrange(
            i,
            i + p.len(),
        ));
        assert(text::stands_at(a + b, p, a.len() + i));
    }
}

proof fn lemma_whole(p: Seq<char>)
    ensures
        text::has_text(p, p),
{
    assert(p.subrange(0, p.len() as int) =~= p);
    assert(text::stands_at(p, p, 0));
}

proof fn lemma_pair(t: Seq<char>, a: Seq<char>, b: Seq<char>)
    ensures
        text::has_text(t + a + b, a + b),
{
    let s = t + a + b;
    assert(s.subrange(t.len() as int, (t.len() + (a + b).len()) as int) =~= a + b);
    assert(text::stands_at(s, a + b, t.len() as int));
}

// ---------------------------------------------------------------------------
// The report
// ---------------------------------------------------------------------------

#[verifier::rlimit(40)]
proof fn lemma_shape(b: QuestBook)
    ensures
        text::has_text(book::shape_text(b), "Групп глав: "@ + book::dec(b.groups)),
        text::has_text(book::shape_text(b), "\nГлав: "@ + book::dec(b.chapters)),
        text::has_text(book::shape_text(b), " (в группах: "@ + book::dec(b.grouped_chapters)),
        text::has_text(book::shape_text(b), ", пустых: "@ + book::dec(b.empty_chapters)),
        text::has_text(book::shape_text(b), ")\nКвестов: "@ + book::dec(b.quests)),
        text::has_text(book::shape_text(b), "\nСвязей-зависимостей: "@ + book::dec(b.dependencies)),
        text::has_text(book::shape_text(b), " (уникальных: "@ + book::dec(b.unique_dependencies)),
        text::has_text(book::shape_text(b), ", между главами: "@ + book::dec(b.cross_chapter_dependencies)),
        text::has_text(book::shape_text(b), ", битых: "@ + book::dec(b.broken_dependencies)),
        b.chapters >= b.grouped_chapters ==> text::has_text(
            book::shape_text(b),
            ", без группы: "@ + compose::decimal((b.chapters - b.grouped_chapters) as nat),
        ),
{
    let rest = book::dec(
        if b.chapters >= b.grouped_chapters {
            (b.chapters - b.grouped_chapters) as usize
        } else {
            0
        },
    );
    let t0 = "Групп глав: "@;
    let t1 = t0 + book::dec(b.groups);
    let t2 = t1 + "\nГлав: "@;
    let t3 = t2 + book::dec(b.chapters);
    let t4 = t3 + " (в группах: "@;
    let t5 = t4 + book::dec(b.grouped_chapters);
    let t6 = t5 + ", без группы: "@;
    let t7 = t6 + rest;
    let t8 = t7 + ", пустых: "@;
    let t9 = t8 + book::dec(b.empty_chapters);
    let t10 = t9 + ")\nКвестов: "@;
    let t11 = t10 + book::dec(b.quests);
    let t12 = t11 + "\nСвязей-зависимостей: "@;
    let t13 = t12 + book::dec(b.dependencies);
    let t14 = t13 + " (уникальных: "@;
    let t15 = t14 + book::dec(b.unique_dependencies);
    let t16 = t15 + ", между главами: "@;
    let t17 = t16 + book::dec(b.cross_chapter_dependencies);
    let t18 = t17 + ", битых: "@;
    let t19 = t18 + book::dec(b.broken_dependencies);
    let t20 = t19 + ")\n"@;
    lemma_longer(t0, book::dec(b.groups));
    lemma_longer(t1, "\nГлав: "@);
    lemma_longer(t2, book::dec(b.chapters));
    lemma_longer(t3, " (в группах: "@);
    lemma_longer(t4, book::dec(b.grouped_chapters));
    lemma_longer(t5, ", без группы: "@);
    lemma_longer(t6, rest);
    lemma_longer(t7, ", пустых: "@);
    lemma_longer(t8, book::dec(b.empty_chapters));
    lemma_longer(t9, ")\nКвестов: "@);
    lemma_longer(t10, book::dec(b.quests));
    lemma_longer(t11, "\nСвязей-зависимостей: "@);
    lemma_longer(t12, book::dec(b.dependencies));
    lemma_longer(t13, " (уникальных: "@);
    lemma_longer(t14, book::dec(b.unique_dependencies));
    lemma_longer(t15, ", между главами: "@);
    lemma_longer(t16, book::dec(b.cross_chapter_dependencies));
    lemma_longer(t17, ", битых: "@);
    lemma_longer(t18, book::dec(b.broken_dependencies));
    lemma_longer(t19, ")\n"@);
    lemma_whole(t1);
    lemma_pair(t1, "\nГлав: "@, book::dec(b.chapters));
    lemma_pair(t3, " (в группах: "@, book::dec(b.grouped_chapters));
    lemma_pair(t7, ", пустых: "@, book::dec(b.empty_chapters));
    lemma_pair(t9, ")\nКвестов: "@, book::dec(b.quests));
    lemma_pair(t11, "\nСвязей-зависимостей: "@, book::dec(b.dependencies));
    lemma_pair(t13, " (уникальных: "@, book::dec(b.unique_dependencies));
    lemma_pair(t15, ", между главами: "@, book::dec(b.cross_chapter_dependencies));
    lemma_pair(t17, ", битых: "@, book::dec(b.broken_dependencies));
    lemma_pair(t5, ", без группы: "@, rest);
    assert(t20 == book::shape_text(b));
}

#[verifier::rlimit(40)]
proof fn lemma_content(b: QuestBook)
    ensures
        text::has_text(book::content_text(b), "Визуальных ссылок на квесты: "@ + book::dec(b.quest_links)),
        text::has_text(book::content_text(b), "\nЗадач: "@ + book::dec(b.tasks)),
        text::has_text(book::content_text(b), "\nНаград: "@ + book::dec(b.rewards)),
        text::has_text(book::content_text(b), "\nТаблиц наград: "@ + book::dec(b.reward_tables)),
        text::has_text(book::content_text(b), " (вариантов наград: "@ + book::dec(b.reward_table_entries)),
        text::has_text(book::content_text(b), ")\nПовторяющихся ID квестов: "@ + book::dec(b.duplicate_quest_ids)),
{
    let t0 = "Визуальных ссылок на квесты: "@;
    let t1 = t0 + book::dec(b.quest_links);
    let t2 = t1 + "\nЗадач: "@;
    let t3 = t2 + book::dec(b.tasks);
    let t4 = t3 + "\nНаград: "@;
    let t5 = t4 + book::dec(b.rewards);
    let t6 = t5 + "\nТаблиц наград: "@;
    let t7 = t6 + book::dec(b.reward_tables);
    let t8 = t7 + " (вариантов наград: "@;
    let t9 = t8 + book::dec(b.reward_table_entries);
    let t10 = t9 + ")\nПовторяющихся ID квестов: "@;
    let t11 = t10 + book::dec(b.duplicate_quest_ids);
    let t12 = t11 + "\n"@;
    lemma_longer(t0, book::dec(b.quest_links));
    lemma_longer(t1, "\nЗадач: "@);
    lemma_longer(t2, book::dec(b.tasks));
    lemma_longer(t3, "\nНаград: "@);
    lemma_longer(t4, book::dec(b.rewards));
    lemma_longer(t5, "\nТаблиц наград: "@);
    lemma_longer(t6, book::dec(b.reward_tables));
    lemma_longer(t7, " (вариантов наград: "@);
    lemma_longer(t8, book::dec(b.reward_table_entries));
    lemma_longer(t9, ")\nПовторяющихся ID квестов: "@);
    lemma_longer(t10, book::dec(b.duplicate_quest_ids));
    lemma_longer(t11, "\n"@);
    lemma_whole(t1);
    lemma_pair(t1, "\nЗадач: "@, book::dec(b.tasks));
    lemma_pair(t3, "\nНаград: "@, book::dec(b.rewards));
    lemma_pair(t5, "\nТаблиц наград: "@, book::dec(b.reward_tables));
    lemma_pair(t7, " (вариантов наград: "@, book::dec(b.reward_table_entries));
    lemma_pair(t9, ")\nПовторяющихся ID квестов: "@, book::dec(b.duplicate_quest_ids));
    assert(t12 == book::content_text(b));
}

proof fn lemma_parts_of_the_report(b: QuestBook)
    ensures
        forall|p: Seq<char>|
            text::has_text(book::title_text(b), p) ==> #[trigger] text::has_text(
                book::report_text(b),
                p,
            ),
        forall|p: Seq<char>|
            text::has_text(book::shape_text(b), p) ==> #[trigger] text::has_text(
                book::report_text(b),
                p,
            ),
        forall|p: Seq<char>|
            text::has_text(book::content_text(b), p) ==> #[trigger] text::has_text(
                book::report_text(b),
                p,
            ),
        text::has_text(
            book::report_text(b),
            book::broken_text(order::views(b.broken_dependency_details@)),
        ),
        text::has_text(book::report_text(b), book::types_text("Типы задач"@, b.task_types@)),
        text::has_text(book::report_text(b), book::types_text("Типы наград"@, b.reward_types@)),
        text::has_text(
            book::report_text(b),
            book::largest_text(order::views(b.largest_chapters@)),
        ),
{
    let p0 = book::title_text(b);
    let p1 = book::shape_text(b);
    let p2 = book::content_text(b);
    let p3 = book::broken_text(order::views(b.broken_dependency_details@));
    let p4 = book::types_text("Типы задач"@, b.task_types@);
    let p5 = book::types_text("Типы наград"@, b.reward_types@);
    let p6 = book::largest_text(order::views(b.largest_chapters@));
    lemma_whole(p3);
    lemma_whole(p4);
    lemma_whole(p5);
    lemma_whole(p6);
    lemma_longer(p0, p1);
    lemma_longer(p0 + p1, p2);
    lemma_longer(p0 + p1 + p2, p3);
    lemma_longer(p0 + p1 + p2 + p3, p4);
    lemma_longer(p0 + p1 + p2 + p3 + p4, p5);
    lemma_longer(p0 + p1 + p2 + p3 + p4 + p5, p6);
    assert(book::report_text(b) == p0 + p1 + p2 + p3 + p4 + p5 + p6);
}

/// The report tells each figure of a book behind its name.
pub proof fn law_report_tells_the_figures(b: QuestBook)
    ensures
        text::has_text(book::report_text(b), "Групп глав: "@ + compose::decimal(b.groups as nat)),
        text::has_text(book::report_text(b), "\nГлав: "@ + compose::decimal(b.chapters as nat)),
        text::has_text(book::report_text(b), " (в группах: "@ + compose::decimal(b.grouped_chapters as nat)),
        text::has_text(book::report_text(b), ", пустых: "@ + compose::decimal(b.empty_chapters as nat)),
        text::has_text(book::report_text(b), ")\nКвестов: "@ + compose::decimal(b.quests as nat)),
        text::has_text(book::report_text(b), "\nСвязей-зависимостей: "@ + compose::decimal(b.dependencies as nat)),
        text::has_text(book::report_text(b), " (уникальных: "@ + compose::decimal(b.unique_dependencies as nat)),
        text::has_text(book::report_text(b), ", между главами: "@ + compose::decimal(b.cross_chapter_dependencies as nat)),
        text::has_text(book::report_text(b), ", битых: "@ + compose::decimal(b.broken_dependencies as nat)),
        text::has_text(book::report_text(b), "Визуальных ссылок на квесты: "@ + compose::decimal(b.quest_links as nat)),
        text::has_text(book::report_text(b), "\nЗадач: "@ + compose::decimal(b.tasks as nat)),
        text::has_text(book::report_text(b), "\nНаград: "@ + compose::decimal(b.rewards as nat)),
        text::has_text(book::report_text(b), "\nТаблиц наград: "@ + compose::decimal(b.reward_tables as nat)),
        text::has_text(book::report_text(b), " (вариантов наград: "@ + compose::decimal(b.reward_table_entries as nat)),
        text::has_text(book::report_text(b), ")\nПовторяющихся ID квестов: "@ + compose::decimal(b.duplicate_quest_ids as nat)),
        b.chapters >= b.grouped_chapters ==> text::has_text(
            book::report_text(b),
            ", без группы: "@ + compose::decimal((b.chapters - b.grouped_chapters) as nat),
        ),
{
    lemma_shape(b);
    lemma_content(b);
    lemma_parts_of_the_report(b);
}

/// The report begins with the title and the place of a book, and tells its version where it has
/// one.
pub proof fn law_report_names_the_book(b: QuestBook)
    ensures
        text::has_text(book::report_text(b), "FTB Quests: "@ + b.title@),
        text::has_text(book::report_text(b), "\nПуть: "@ + b.root@),
        b.format_version matches Some(version) ==> text::has_text(
            book::report_text(b),
            "Версия формата: "@ + version@,
        ),
{
    lemma_parts_of_the_report(b);
    let t1 = "FTB Quests: "@ + b.title@;
    lemma_whole(t1);
    lemma_pair(t1, "\nПуть: "@, b.root@);
    let t2 = t1 + "\nПуть: "@;
    let t3 = t2 + b.root@;
    let t4 = t3 + "\n"@;
    lemma_longer(t1, "\nПуть: "@);
    lemma_longer(t2, b.root@);
    lemma_longer(t3, "\n"@);
    let line = match b.format_version {
        Some(version) => "Версия формата: "@ + version@ + "\n"@,
        None => Seq::empty(),
    };
    if let Some(version) = b.format_version {
        lemma_whole("Версия формата: "@ + version@);
        lemma_longer("Версия формата: "@ + version@, "\n"@);
    }
    lemma_longer(t4, line);
    lemma_longer(t4 + line, "\n"@);
    assert(book::title_text(b) == t4 + line + "\n"@);
}

/// The report has a line for each broken dependency, and a list without lines has no heading
/// either.
pub proof fn law_broken_dependencies_have_lines(
    b: QuestBook,
    broken: Seq<book::BrokenModel>,
    d: book::BrokenModel,
)
    ensures
        text::has_text(
            book::report_text(b),
            book::broken_text(order::views(b.broken_dependency_details@)),
        ),
        book::broken_text(Seq::empty()).len() == 0,
        book::broken_lines(Seq::empty()).len() == 0,
        book::broken_text(broken.push(d)) == "\nБитые зависимости:\n"@ + (book::broken_lines(broken) + (
        "  ["@ + d.chapter + "] "@ + d.quest_id + " -> "@ + d.missing_quest_id
            + " (квест не найден)\n"@)),
{
    assert(text::has_text(
        book::report_text(b),
        book::broken_text(order::views(b.broken_dependency_details@)),
    )) by {
        lemma_parts_of_the_report(b);
    }
    assert(broken.push(d).drop_last() =~= broken);
}

/// The report has a line for each type of task and of reward with its number, and a list without
/// lines has no heading either.
pub proof fn law_types_have_lines(
    b: QuestBook,
    types: Seq<(Seq<char>, usize)>,
    t: (Seq<char>, usize),
    title: Seq<char>,
)
    ensures
        text::has_text(book::report_text(b), book::types_text("Типы задач"@, b.task_types@)),
        text::has_text(book::report_text(b), book::types_text("Типы наград"@, b.reward_types@)),
        book::types_text(title, Seq::empty()).len() == 0,
        book::type_lines(Seq::empty()).len() == 0,
        book::type_lines(types.push(t)) == book::type_lines(types) + ("  "@ + t.0 + ": "@
            + compose::decimal(t.1 as nat) + "\n"@),
{
    assert(text::has_text(book::report_text(b), book::types_text("Типы задач"@, b.task_types@))
        && text::has_text(
        book::report_text(b),
        book::types_text("Типы наград"@, b.reward_types@),
    )) by {
        lemma_parts_of_the_report(b);
    }
    assert(types.push(t).drop_last() =~= types);
}

/// The report has a line for each of the largest chapters with its number of quests, and a list
/// without lines has no heading either.
pub proof fn law_largest_chapters_have_lines(
    b: QuestBook,
    chapters: Seq<book::SummaryModel>,
    c: book::SummaryModel,
)
    ensures
        text::has_text(
            book::report_text(b),
            book::largest_text(order::views(b.largest_chapters@)),
        ),
        book::largest_text(Seq::empty()).len() == 0,
        book::chapter_lines(Seq::empty()).len() == 0,
        book::largest_text(chapters.push(c)) == "\nКрупнейшие главы:\n"@ + (book::chapter_lines(
            chapters,
        ) + ("  "@ + compose::right_aligned(compose::decimal(c.quests), 4) + "  "@ + c.title + " ["@
            + c.filename + "]\n"@)),
{
    assert(text::has_text(
        book::report_text(b),
        book::largest_text(order::views(b.largest_chapters@)),
    )) by {
        lemma_parts_of_the_report(b);
    }
    assert(chapters.push(c).drop_last() =~= chapters);
}

/// The types of a list stand with the most frequent first, and equally frequent ones by name; none
/// is lost and none is added.
pub proof fn law_types_are_in_order(title: Seq<char>, types: Seq<(Seq<char>, usize)>) -> (sorted:
    Seq<(Seq<char>, usize)>)
    requires
        types.len() > 0,
    ensures
        book::types_text(title, types) == "\n"@ + title + ":\n"@ + book::type_lines(sorted),
        sorted.to_multiset() == types.to_multiset(),
        forall|i: int, j: int|
            0 <= i < j < sorted.len() ==> (#[trigger] sorted[i]).1 >= (#[trigger] sorted[j]).1,
        forall|i: int, j: int|
            0 <= i < j < sorted.len() && (#[trigger] sorted[i]).1 == (#[trigger] sorted[j]).1
                ==> !text::precedes(sorted[j].0, sorted[i].0),
{
    let before = |a: (Seq<char>, usize), b: (Seq<char>, usize)| book::counts_more(a, b);
    let sorted = order::sorted_by(types, before);
    order::lemma_sorted_keeps(types, before);
    assert(order::is_ranking(before)) by {
        assert forall|a: (Seq<char>, usize), b: (Seq<char>, usize)| #[trigger]
            before(a, b) implies !before(b, a) by {
            book_laws::lemma_two_texts(a.0, b.0);
        }
        assert forall|a: (Seq<char>, usize), b: (Seq<char>, usize), c: (Seq<char>, usize)|
            !(#[trigger] before(b, a)) && !(#[trigger] before(c, b)) implies !before(c, a) by {
            book_laws::lemma_three_texts(a.0, b.0, c.0);
        }
    }
    order::lemma_sorted_in_order(types, before);
    assert forall|i: int, j: int| 0 <= i < j < sorted.len() implies (#[trigger] sorted[i]).1
        >= (#[trigger] sorted[j]).1 by {
        assert(!before(sorted[j], sorted[i]));
    }
    assert forall|i: int, j: int|
        0 <= i < j < sorted.len() && (#[trigger] sorted[i]).1 == (#[trigger] sorted[j]).1 implies !text::precedes(
        sorted[j].0,
        sorted[i].0,
    ) by {
        assert(!before(sorted[j], sorted[i]));
    }
    sorted
}

/// A number of bytes is told in bytes below a kibibyte, in kibibytes below a mebibyte, and in
/// mebibytes from there on; a time in microseconds below a millisecond, in milliseconds below a
/// second, and in seconds from there on.
pub proof fn law_units_fit(bytes: u64, nanos: u128, scaled: Seq<char>)
    ensures
        bytes < 1024 ==> book::bytes_label(bytes, scaled) == compose::decimal(bytes as nat) + " B"@,
        1024 <= bytes < 1048576 ==> book::bytes_label(bytes, scaled) == scaled + " KiB"@,
        1048576 <= bytes ==> book::bytes_label(bytes, scaled) == scaled + " MiB"@,
        nanos < 1000000 ==> book::time_label(nanos, scaled) == scaled + " us"@,
        1000000 <= nanos < 1000000000 ==> book::time_label(nanos, scaled) == scaled + " ms"@,
        1000000000 <= nanos ==> book::time_label(nanos, scaled) == scaled + " s"@,
{
}

// ---------------------------------------------------------------------------
// The log
// ---------------------------------------------------------------------------

proof fn lemma_cycles_logged(
    s: SessionModel,
    cycles: Seq<Seq<Seq<char>>>,
    elapsed: u64,
)
    ensures
        session::cycles_logged(s, cycles, elapsed) == (SessionModel {
            logs: session::cycles_logged(s, cycles, elapsed).logs,
            ..s
        }),
        s.logs.len() + cycles.len() <= 1000 ==> {
            let after = session::cycles_logged(s, cycles, elapsed).logs;
            &&& after.len() == s.logs.len() + cycles.len()
            &&& after.take(s.logs.len() as int) == s.logs
            &&& forall|i: int|
                0 <= i < cycles.len() ==> after[#[trigger] (s.logs.len() + i)] == (
                session::LogModel {
                    elapsed,
                    level: LogLevel::Warning,
                    message: labels::cycle_text(s.book, cycles[i], "Обнаружен цикл"@),
                })
        },
    decreases cycles.len(),
{
    if cycles.len() > 0 {
        lemma_cycles_logged(s, cycles.drop_last(), elapsed);
        if s.logs.len() + cycles.len() <= 1000 {
            let before = session::cycles_logged(s, cycles.drop_last(), elapsed).logs;
            let after = session::cycles_logged(s, cycles, elapsed).logs;
            assert(after.take(s.logs.len() as int) =~= before.take(s.logs.len() as int));
            assert forall|i: int| 0 <= i < cycles.len() implies after[#[trigger] (s.logs.len()
                + i)] == (session::LogModel {
                elapsed,
                level: LogLevel::Warning,
                message: labels::cycle_text(s.book, cycles[i], "Обнаружен цикл"@),
            }) by {
                if i < cycles.len() - 1 {
                    assert(before[s.logs.len() + i] == after[s.logs.len() + i]);
                    assert(cycles.drop_last()[i] == cycles[i]);
                }
            }
        }
    } else {
        assert(s.logs.take(s.logs.len() as int) =~= s.logs);
    }
}

proof fn lemma_broken_logged(
    s: SessionModel,
    broken: Seq<(Seq<char>, Seq<char>)>,
    elapsed: u64,
)
    ensures
        session::broken_logged(s, broken, elapsed) == (SessionModel {
            logs: session::broken_logged(s, broken, elapsed).logs,
            ..s
        }),
        s.logs.len() + broken.len() <= 1000 ==> {
            let after = session::broken_logged(s, broken, elapsed).logs;
            &&& after.len() == s.logs.len() + broken.len()
            &&& after.take(s.logs.len() as int) == s.logs
            &&& forall|i: int|
                0 <= i < broken.len() ==> after[#[trigger] (s.logs.len() + i)] == (
                session::LogModel {
                    elapsed,
                    level: LogLevel::Warning,
                    message: labels::broken_text(s.book, broken[i]),
                })
        },
    decreases broken.len(),
{
    if broken.len() > 0 {
        lemma_broken_logged(s, broken.drop_last(), elapsed);
        if s.logs.len() + broken.len() <= 1000 {
            let before = session::broken_logged(s, broken.drop_last(), elapsed).logs;
            let after = session::broken_logged(s, broken, elapsed).logs;
            assert(after.take(s.logs.len() as int) =~= before.take(s.logs.len() as int));
            assert forall|i: int| 0 <= i < broken.len() implies after[#[trigger] (s.logs.len()
                + i)] == (session::LogModel {
                elapsed,
                level: LogLevel::Warning,
                message: labels::broken_text(s.book, broken[i]),
            }) by {
                if i < broken.len() - 1 {
                    assert(before[s.logs.len() + i] == after[s.logs.len() + i]);
                    assert(broken.drop_last()[i] == broken[i]);
                }
            }
        }
    } else {
        assert(s.logs.take(s.logs.len() as int) =~= s.logs);
    }
}

/// A diagnosis changes nothing but the log. There it puts one line that counts the cycles and the
/// broken dependencies, a warning where there are any, and behind it a warning for each.
pub proof fn law_diagnosis_is_logged(s: SessionModel, reason: Seq<char>, elapsed: u64)
    ensures
        ({
            let cycles = diagnostics::sorted_cycles(diagnostics::book_table(s.book));
            let broken = diagnostics::sorted_missing(diagnostics::quests_of(s.book.chapters));
            let after = session::diagnosed(s, reason, elapsed);
            let n = s.logs.len();
            &&& after == (SessionModel { logs: after.logs, ..s })
            &&& n + 1 + cycles.len() + broken.len() <= 1000 ==> {
                &&& after.logs.len() == n + 1 + cycles.len() + broken.len()
                &&& after.logs.take(n as int) == s.logs
                &&& after.logs[n as int].level == if cycles.len() + broken.len() > 0 {
                    LogLevel::Warning
                } else {
                    LogLevel::Info
                }
                &&& after.logs[n as int].message == reason + ": циклов — "@ + compose::decimal(
                    cycles.len(),
                ) + ", битых зависимостей — "@ + compose::decimal(broken.len()) + "."@
                &&& forall|i: int|
                    0 <= i < cycles.len() ==> after.logs[#[trigger] (n + 1 + i)].message
                        == labels::cycle_text(s.book, cycles[i], "Обнаружен цикл"@)
                &&& forall|i: int|
                    0 <= i < broken.len() ==> after.logs[#[trigger] (n + 1 + cycles.len()
                        + i)].message == labels::broken_text(s.book, broken[i])
            }
        }),
{
    let cycles = diagnostics::sorted_cycles(diagnostics::book_table(s.book));
    let broken = diagnostics::sorted_missing(diagnostics::quests_of(s.book.chapters));
    let level = if cycles.len() == 0 && broken.len() == 0 {
        LogLevel::Info
    } else {
        LogLevel::Warning
    };
    let first = session::logged(
        s,
        level,
        session::diagnosis_text(reason, cycles.len(), broken.len()),
        elapsed,
    );
    let second = session::cycles_logged(first, cycles, elapsed);
    let after = session::diagnosed(s, reason, elapsed);
    lemma_cycles_logged(first, cycles, elapsed);
    lemma_broken_logged(second, broken, elapsed);
    let n = s.logs.len();
    if n + 1 + cycles.len() + broken.len() <= 1000 {
        assert(first.logs.len() == n + 1);
        assert(second.logs.len() == n + 1 + cycles.len());
        let kept = after.logs.take(second.logs.len() as int);
        let told = second.logs.take(first.logs.len() as int);
        assert forall|i: int| 0 <= i < second.logs.len() implies #[trigger] after.logs[i]
            == second.logs[i] by {
            assert(kept[i] == after.logs[i]);
        }
        assert forall|i: int| 0 <= i < first.logs.len() implies #[trigger] second.logs[i]
            == first.logs[i] by {
            assert(told[i] == second.logs[i]);
        }
        assert(after.logs.take(n as int) =~= s.logs);
        assert(after.logs[n as int] == first.logs[n as int]);
        assert forall|i: int| 0 <= i < cycles.len() implies after.logs[#[trigger] (n + 1 + i)].message
            == labels::cycle_text(s.book, cycles[i], "Обнаружен цикл"@) by {
            assert(second.logs[first.logs.len() + i] == after.logs[n + 1 + i]);
        }
        assert forall|i: int| 0 <= i < broken.len() implies after.logs[#[trigger] (n + 1
            + cycles.len() + i)].message == labels::broken_text(s.book, broken[i]) by {
            assert(after.logs[second.logs.len() + i] == after.logs[n + 1 + cycles.len() + i]);
        }
    }
}

/// The warning of a cycle tells its length and names the last dependency of it as the one to
/// remove; that of a broken dependency names the quest and what it lacks.
pub proof fn law_warnings_name_the_quests(
    b: editor::BookModel,
    ids: Seq<Seq<char>>,
    dependency: (Seq<char>, Seq<char>),
    prefix: Seq<char>,
)
    ensures
        ids.len() >= 2 ==> text::has_text(
            labels::cycle_text(b, ids, prefix),
            ", длина пути: "@ + compose::decimal((ids.len() - 1) as nat),
        ),
        ids.len() >= 2 ==> text::has_text(
            labels::suggestion_text(b, ids),
            labels::label_of(b, ids[ids.len() - 2]) + " → "@ + labels::label_of(
                b,
                ids[ids.len() - 1],
            ),
        ),
        text::has_text(
            labels::cycle_text(b, ids, prefix),
            labels::suggestion_text(b, ids),
        ),
        text::has_text(
            labels::broken_text(b, dependency),
            labels::label_of(b, dependency.0) + " ссылается на отсутствующий квест "@
                + dependency.1,
        ),
{
    let length = compose::decimal(diagnostics::cycle_length(ids));
    let route = labels::route_text(labels::labels_of(b, ids));
    let hint = labels::suggestion_text(b, ids);
    lemma_pair(prefix, ", длина пути: "@, length);
    let t1 = prefix + ", длина пути: "@ + length;
    lemma_longer(t1, ". Маршрут: "@);
    lemma_longer(t1 + ". Маршрут: "@, route);
    lemma_longer(t1 + ". Маршрут: "@ + route, ". "@);
    lemma_longer(t1 + ". Маршрут: "@ + route + ". "@, hint);
    lemma_whole(hint);
    assert(labels::cycle_text(b, ids, prefix) == t1 + ". Маршрут: "@ + route + ". "@ + hint);
    if ids.len() >= 2 {
        let start = "Исправление: удалите одну зависимость в цикле, например "@;
        let from = labels::label_of(b, ids[ids.len() - 2]);
        let to = labels::label_of(b, ids[ids.len() - 1]);
        lemma_pair(start, from + " → "@, to);
        assert(start + (from + " → "@) + to =~= start + from + " → "@ + to);
        lemma_longer(start + from + " → "@ + to, "."@);
        assert(hint == start + from + " → "@ + to + "."@);
    }
    let start = "Битая зависимость: "@;
    let lacking = labels::label_of(b, dependency.0) + " ссылается на отсутствующий квест "@;
    let end = ". Исправление: удалите эту зависимость или восстановите квест с данным ID."@;
    lemma_pair(start, lacking, dependency.1);
    lemma_longer(start + lacking + dependency.1, end);
    assert(labels::broken_text(b, dependency) =~= start + lacking + dependency.1 + end);
}

/// The size of a book is told by the numbers of its groups, its chapters and its quests, and an
/// import by the number of its languages and of the entries that are only kept.
pub proof fn law_sizes_are_told(
    b: editor::BookModel,
    report: ImportReport,
    destination: Seq<char>,
)
    requires
        session::quest_count(b.chapters) <= usize::MAX,
    ensures
        session::size_text(b) == compose::decimal(b.groups.len()) + " групп, "@ + compose::decimal(
            b.chapters.len(),
        ) + " глав, "@ + compose::decimal(session::quest_count(b.chapters)) + " квестов"@,
        text::has_text(session::imported_text(b, report, destination), session::size_text(b)),
        text::has_text(
            session::imported_text(b, report, destination),
            compose::decimal(report.imported_languages as nat) + " языков. Экспорт: "@
                + destination,
        ),
        report.preserved_tasks + report.preserved_rewards > 0 ==> text::has_text(
            session::imported_text(b, report, destination),
            compose::decimal(report.preserved_tasks as nat) + " задач, "@ + compose::decimal(
                report.preserved_rewards as nat,
            ) + " наград."@,
        ),
{
    let size = session::size_text(b);
    let n = compose::decimal(report.imported_languages as nat);
    let start = "Импортировано: "@;
    let tail = n + " языков. Экспорт: "@ + destination;
    let first = start + size + ", "@ + n + " языков. Экспорт: "@ + destination;
    assert(start + size + (", "@ + tail) =~= first);
    assert(start + size + ", "@ + tail =~= first);
    let all = session::imported_text(b, report, destination);
    assert(text::has_text(first, size)) by {
        lemma_whole(size);
        lemma_longer(start, size);
        lemma_longer(start + size, ", "@ + tail);
    }
    assert(text::has_text(first, tail)) by {
        lemma_whole(tail);
        lemma_longer(start + size + ", "@, tail);
    }
    if report.preserved_tasks + report.preserved_rewards > 0 {
        let said = " Сохранено без потерь в режиме только чтения: "@;
        let kept = compose::decimal(report.preserved_tasks as nat) + " задач, "@
            + compose::decimal(report.preserved_rewards as nat) + " наград."@;
        assert(first + (said + kept) =~= all);
        assert(first + said + kept =~= all);
        assert(text::has_text(all, size) && text::has_text(all, tail)) by {
            lemma_longer(first, said + kept);
        }
        assert(text::has_text(all, kept)) by {
            lemma_whole(kept);
            lemma_longer(first + said, kept);
        }
    }
}

/// The place of an error is told by its line and its column.
pub proof fn law_place_of_an_error_is_told(message: Seq<char>, line: nat, column: nat)
    ensures
        text::has_text(snbt::error_text(message, line as int, column as int), message),
        text::has_text(
            snbt::error_text(message, line as int, column as int),
            " (строка "@ + compose::decimal(line),
        ),
        text::has_text(
            snbt::error_text(message, line as int, column as int),
            ", столбец "@ + compose::decimal(column),
        ),
{
    let l = compose::decimal(line);
    let c = compose::decimal(column);
    lemma_whole(message);
    lemma_longer(message, " (строка "@);
    lemma_longer(message + " (строка "@, l);
    lemma_pair(message, " (строка "@, l);
    let t = message + " (строка "@ + l;
    lemma_longer(t, ", столбец "@);
    lemma_longer(t + ", столбец "@, c);
    lemma_pair(t, ", столбец "@, c);
    lemma_longer(t + ", столбец "@ + c, ")"@);
}

/// The time until the next snapshot runs down from five minutes by the second.
pub proof fn law_time_runs_down(nanos: u64)
    ensures
        captions::seconds_left(0) == 300,
        nanos <= 299_000_000_000 ==> captions::seconds_left(nanos) == captions::seconds_left(
            (nanos + 1_000_000_000) as u64,
        ) + 1,
        nanos >= 300_000_000_000 ==> captions::seconds_left(nanos) == 0,
{
}

// ---------------------------------------------------------------------------
// New things
// ---------------------------------------------------------------------------

proof fn lemma_tags_made(pieces: Seq<Seq<char>>)
    ensures
        session::tags_in(pieces) == picks::made(
            pieces,
            |p: Seq<char>|
                if text::trimmed(p).len() == 0 {
                    None
                } else {
                    Some(text::trimmed(p))
                },
        ),
    decreases pieces.len(),
{
    if pieces.len() > 0 {
        lemma_tags_made(pieces.drop_last());
    }
}

/// Each piece that is not blank is a tag, without the white space round it.
pub proof fn law_tags_are_read(pieces: Seq<Seq<char>>) -> (places: Seq<int>)
    ensures
        picks::picks(pieces, |p: Seq<char>| text::trimmed(p).len() > 0, places),
        session::tags_in(pieces) == Seq::new(
            places.len(),
            |j: int| text::trimmed(pieces[places[j]]),
        ),
{
    let f = |p: Seq<char>|
        if text::trimmed(p).len() == 0 {
            None
        } else {
            Some(text::trimmed(p))
        };
    lemma_tags_made(pieces);
    let places = picks::lemma_made(pieces, f);
    picks::lemma_same_wish(
        pieces,
        |p: Seq<char>| f(p) is Some,
        |p: Seq<char>| text::trimmed(p).len() > 0,
        places,
    );
    assert forall|j: int| 0 <= j < places.len() implies session::tags_in(pieces)[j]
        == text::trimmed(pieces[#[trigger] places[j]]) by {
        assert(f(pieces[places[j]]) == Some(picks::made(pieces, f)[j]));
    }
    assert(session::tags_in(pieces) =~= Seq::new(
        places.len(),
        |j: int| text::trimmed(pieces[places[j]]),
    ));
    places
}

/// A new quest hides nothing, asks for nothing and cannot be repeated unless its chapter says so;
/// all that it depends on must be done.
pub proof fn law_new_quests_are_plain(
    id: Seq<char>,
    title: Seq<char>,
    description: Seq<char>,
    x: quest::NumberModel,
    y: quest::NumberModel,
)
    ensures
        ({
            let q = editor::new_quest(id, title, description, x, y);
            let t = q.settings;
            &&& q.id == id && q.title == title && q.description == description && q.x == x && q.y
                == y
            &&& q.shape == "circle"@
            &&& q.description_raw is None && q.icon_raw is None
            &&& t.subtitle.len() == 0 && t.tags.len() == 0
            &&& t.dependency_requirement == "all_completed"@
            &&& t.progression_mode == "default"@
            &&& t.min_width == 0 && t.min_required_dependencies == 0
            &&& t.max_completable_dependents == 0 && t.invisible_until_tasks == 0
            &&& t.repeat_cooldown == 0
            &&& !t.hide_dependent_lines && !t.hide_lock_icon && !t.invisible && !t.optional
            &&& !t.ignore_reward_blocking
            &&& t.hide_until_deps_visible == Tristate::Default
            &&& t.hide_until_deps_complete == Tristate::Default
            &&& t.hide_dependency_lines == Tristate::Default
            &&& t.hide_details_until_startable == Tristate::Default
            &&& t.hide_text_until_complete == Tristate::Default
            &&& t.can_repeat == Tristate::Default
            &&& t.require_sequential_tasks == Tristate::Default
            &&& t.disable_recipe_mod == Tristate::Default
        }),
{
}

/// A new task or reward has the id that it is given and stands for one thing, or for ten points of
/// experience; nothing of it was read from a file.
pub proof fn law_new_entries_are_plain(id: Seq<char>)
    ensures
        session::new_task(session::NewTask::Checkmark, id) == (quest::TaskModel::Checkmark {
            id,
            title: "Выполнить"@,
            raw: None,
        }),
        session::new_task(session::NewTask::Item, id) == (quest::TaskModel::Item {
            id,
            title: "Получить предмет"@,
            item: "minecraft:stone"@,
            count: 1,
            raw: None,
        }),
        session::new_task(session::NewTask::Kill, id) == (quest::TaskModel::Kill {
            id,
            title: "Убить существо"@,
            entity: "minecraft:zombie"@,
            count: 1,
            raw: None,
        }),
        session::new_reward(session::NewReward::Xp, id) == (quest::RewardModel::Xp {
            id,
            amount: 10,
            raw: None,
        }),
        session::new_reward(session::NewReward::Item, id) == (quest::RewardModel::Item {
            id,
            item: "minecraft:diamond"@,
            count: 1,
            raw: None,
        }),
{
}

// ---------------------------------------------------------------------------
// The session
// ---------------------------------------------------------------------------

/// What is announced is both the status and the last line of the log, and nothing else changes.
pub proof fn law_announcements_are_seen(
    s: SessionModel,
    level: LogLevel,
    message: Seq<char>,
    elapsed: u64,
)
    ensures
        ({
            let after = session::announced(s, level, message, elapsed);
            &&& after == (SessionModel { status: message, logs: after.logs, ..s })
            &&& after.logs.len() > 0
            &&& after.logs.last() == (session::LogModel { elapsed, level, message })
            &&& s.logs.len() < 1000 ==> after.logs.drop_last() == s.logs
        }),
{
    let after = session::announced(s, level, message, elapsed);
    if s.logs.len() < 1000 {
        assert(after.logs.drop_last() =~= s.logs);
    }
}

/// A book that is imported is opened at its first chapter with nothing selected, and the status
/// tells what was imported.
pub proof fn law_imported_book_is_opened(
    s: SessionModel,
    b: editor::BookModel,
    report: ImportReport,
    destination: Seq<char>,
    elapsed: u64,
)
    ensures
        ({
            let after = session::imported(s, b, report, destination, elapsed);
            &&& after.book == b
            &&& after.selected_chapter == 0
            &&& after.selected.len() == 0
            &&& after.selected_quest is None
            &&& after.status == session::imported_text(b, report, destination)
            &&& after.id_state == s.id_state
            &&& after.clipboard == s.clipboard
        }),
{
    let opened = session::announced(
        session::reopened(s, b),
        LogLevel::Info,
        session::imported_text(b, report, destination),
        elapsed,
    );
    law_diagnosis_is_logged(opened, "Диагностика после импорта"@, elapsed);
}

/// Saving tells the size of the book, or what went wrong as an error: that there is no folder, that
/// the folder holds another book, or what the disk said.
pub proof fn law_saving_tells_how_it_went(
    b: editor::BookModel,
    root: Seq<char>,
    message: Seq<char>,
    error: Option<Seq<char>>,
)
    ensures
        session::save_message(b, session::SaveDecision::NoFolder, root, error).0
            == LogLevel::Error,
        session::save_message(b, session::SaveDecision::Occupied, root, error).0
            == LogLevel::Error,
        text::has_text(
            session::save_message(b, session::SaveDecision::Occupied, root, error).1,
            root,
        ),
        session::save_message(b, session::SaveDecision::Save, root, Some(message)) == (
            LogLevel::Error,
            "Ошибка сохранения: "@ + message,
        ),
        session::save_message(b, session::SaveDecision::Save, root, None) == (
            LogLevel::Info,
            "Сохранено: "@ + session::size_text(b) + "."@,
        ),
{
    lemma_whole(root);
    lemma_longer("Сохранение отменено: "@, root);
    lemma_longer(
        "Сохранение отменено: "@ + root,
        " уже содержит книгу. Выберите пустую папку."@,
    );
}

/// A dependency that is refused leaves the book as it is; the log is shown, with a warning that
/// tells the cycle.
pub proof fn law_refusals_are_shown(
    s: SessionModel,
    cycle: Seq<Seq<char>>,
    status: Seq<char>,
    elapsed: u64,
)
    ensures
        ({
            let after = session::refused(s, cycle, status, elapsed);
            &&& after == (SessionModel {
                status,
                right_tab: session::RightTab::Logs,
                logs: after.logs,
                ..s
            })
            &&& after.logs.last() == (session::LogModel {
                elapsed,
                level: LogLevel::Warning,
                message: labels::cycle_text(s.book, cycle, "Отклонена новая зависимость"@),
            })
        }),
{
}

/// The status counts the quests that were copied, put in or deleted; one id counts once.
pub proof fn law_status_counts_quests(s: SessionModel, removed: Seq<Seq<char>>)
    ensures
        s.selected_chapter < s.book.chapters.len() ==> session::copied(s).status
            == "Скопировано квестов: "@ + compose::decimal(session::copied(s).clipboard.len())
            + "."@,
        s.clipboard.len() > 0 && s.selected_chapter < s.book.chapters.len() ==> session::pasted(
            s,
            Seq::empty(),
        ).status == "Вставлено квестов: "@ + compose::decimal(s.clipboard.len()) + "."@,
        session::deleted(s, removed).status == "Удалено квестов: "@ + compose::decimal(
            book::different(removed),
        ) + "."@,
        session::deleted(s, removed).connection_start is None,
        session::deleted(s, removed).selected.len() == 0,
        session::deleted(s, removed).selected_quest is None,
{
}

/// A moved chapter is named in the status with the group to which it went.
pub proof fn law_moves_are_told(b: editor::BookModel, title: Seq<char>, id: Seq<char>)
    ensures
        text::has_text(
            session::moved_text(b, title, None),
            translation::shown(b.translations, title),
        ),
        text::has_text(
            session::moved_text(b, title, Some(id)),
            translation::shown(b.translations, title),
        ),
        search::group_title(b.groups, id, 0) matches Some(found) ==> text::has_text(
            session::moved_text(b, title, Some(id)),
            translation::shown(b.translations, found),
        ),
{
    let name = translation::shown(b.translations, title);
    let start = "Глава «"@;
    lemma_whole(name);
    lemma_longer(start, name);
    lemma_longer(start + name, "» перенесена в раздел без группы."@);
    let to = match search::group_title(b.groups, id, 0) {
        Some(found) => translation::shown(b.translations, found),
        None => "неизвестную группу"@,
    };
    lemma_whole(to);
    lemma_longer(start + name, "» перенесена в «"@);
    lemma_longer(start + name + "» перенесена в «"@, to);
    lemma_longer(start + name + "» перенесена в «"@ + to, "»."@);
}

} // verus!
