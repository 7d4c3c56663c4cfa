//! What a book that was read says of its files.

use crate::book;
use crate::book::BookSources;
use crate::book::QuestBook;
use crate::editor;
use crate::editor::EditorError;
use crate::import_laws;
use crate::notation;
use crate::order;
use crate::snbt;
use crate::text;
use vstd::prelude::*;

verus! {

/// The value that a file holds.
pub open spec fn held(file: book::SourceModel) -> notation::Node {
    notation::document(file.contents->Ok_0)->Ok_0
}

/// The title and the version of a book that was read stand in its data, its groups in the file of
/// the groups, and there are as many chapters and tables as there are files of them.
pub proof fn law_read_book_has_its_names(
    b: QuestBook,
    sources: BookSources,
    chapters: Seq<book::SourceModel>,
    tables: Seq<book::SourceModel>,
)
    requires
        book::describes(b, sources),
        sources.chapters matches Ok(list) && order::views(list@) == chapters,
        sources.reward_tables matches Ok(list) && order::views(list@) == tables,
    ensures
        b.root@ == sources.root@,
        import_laws::is_text(held(sources.data@), "title"@, "Без названия"@, b.title@),
        match snbt::field(held(sources.data@), "version"@) {
            Some(notation::Node::Scalar(s)) => b.format_version matches Some(version) && version@
                == s,
            _ => b.format_version is None,
        },
        match sources.groups {
            Some(groups) => b.groups == import_laws::listed(
                held(groups@),
                "chapter_groups"@,
            ).len(),
            None => b.groups == 0,
        },
        b.chapters == chapters.len(),
        b.reward_tables == tables.len(),
        1 + chapters.len() + tables.len() < usize::MAX ==> b.processing.snbt_files
            == if sources.groups is Some {
            2 + chapters.len() + tables.len()
        } else {
            1 + chapters.len() + tables.len()
        },
{
}

/// A book that was read counts the quests, the tasks, the rewards and the dependencies of all its
/// chapters, and tells each dependency on a quest that is not there.
pub proof fn law_read_book_has_its_figures(
    b: QuestBook,
    sources: BookSources,
    chapters: Seq<book::SourceModel>,
)
    requires
        book::describes(b, sources),
        sources.chapters matches Ok(list) && order::views(list@) == chapters,
    ensures
        ({
            let all = Seq::new(
                chapters.len(),
                |i: int| (chapters[i].stem, held(chapters[i])),
            );
            let quests = book::named(all);
            let counts = book::chapter_counts(all);
            let links = book::links(quests);
            let tasks = book::items_of(quests, "tasks"@);
            let rewards = book::items_of(quests, "rewards"@);
            &&& counts.quests <= usize::MAX ==> b.quests == counts.quests
            &&& counts.grouped <= usize::MAX ==> b.grouped_chapters == counts.grouped
            &&& counts.empty <= usize::MAX ==> b.empty_chapters == counts.empty
            &&& counts.links <= usize::MAX ==> b.quest_links == counts.links
            &&& tasks.len() <= usize::MAX ==> b.tasks == tasks.len()
            &&& rewards.len() <= usize::MAX ==> b.rewards == rewards.len()
            &&& b.task_types@ == book::type_counts(tasks)
            &&& b.reward_types@ == book::type_counts(rewards)
            &&& b.dependencies == links.len()
            &&& b.unique_dependencies == book::different(links)
            &&& b.cross_chapter_dependencies == book::crossing_links(links, book::homes(quests))
            &&& b.broken_dependencies == book::broken_links(links, book::homes(quests)).len()
            &&& order::views(b.broken_dependency_details@).to_multiset() == book::broken_links(
                links,
                book::homes(quests),
            ).to_multiset()
            &&& book::repeated_ids(quests) <= usize::MAX ==> b.duplicate_quest_ids
                == book::repeated_ids(quests)
        }),
{
    let all = Seq::new(chapters.len(), |i: int| (chapters[i].stem, held(chapters[i])));
    assert(book::contents_of(chapters) =~= all);
    let quests = book::named(all);
    let broken = book::broken_links(book::links(quests), book::homes(quests));
    order::lemma_sorted_keeps(broken, order::ranking::<book::BrokenDependency>());
    assert(order::views(b.broken_dependency_details@).len() == broken.len()) by {
        broadcast use vstd::seq_lib::group_to_multiset_ensures;

        assert(order::views(b.broken_dependency_details@).to_multiset().len()
            == broken.to_multiset().len());
    }
}

/// An error of the editor names the file, the folder or the field that it is about.
pub proof fn law_errors_name_their_place(place: String, e: EditorError)
    ensures
        e == EditorError::InvalidBook(place) || e == EditorError::ExistingBook(place) || e
            == EditorError::EmptyInput(place) ==> text::has_text(
            editor::error_message(e),
            place@,
        ),
        e matches EditorError::Parse { path, source } ==> text::has_text(
            editor::error_message(e),
            path@,
        ),
        e == EditorError::Io(place) ==> editor::error_message(e) == place@,
{
    let all = editor::error_message(e);
    match e {
        EditorError::InvalidBook(path) => {
            assert(all.subrange("в "@.len() as int, ("в "@.len() + path@.len()) as int)
                =~= path@);
            assert(text::stands_at(all, path@, "в "@.len() as int));
        },
        EditorError::ExistingBook(path) => {
            let start = "книга уже существует в "@;
            assert(all.subrange(start.len() as int, (start.len() + path@.len()) as int) =~= path@);
            assert(text::stands_at(all, path@, start.len() as int));
        },
        EditorError::EmptyInput(field) => {
            let start = "поле «"@;
            assert(all.subrange(start.len() as int, (start.len() + field@.len()) as int)
                =~= field@);
            assert(text::stands_at(all, field@, start.len() as int));
        },
        EditorError::Parse { path, source } => {
            let start = "ошибка SNBT в "@;
            assert(all.subrange(start.len() as int, (start.len() + path@.len()) as int) =~= path@);
            assert(text::stands_at(all, path@, start.len() as int));
        },
        EditorError::Io(_) => {},
    }
}

} // verus!
