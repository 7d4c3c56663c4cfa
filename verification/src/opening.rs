//! Opening a book: which files of a folder are read, and what comes of reading them.

use crate::book;
use crate::book::SourceFile;
use crate::compose;
use crate::editor;
use crate::editor::{read_snbt, BookParts, ChapterSource, EditorError, PreservedFile};
use crate::languages;
use crate::languages::{load_translations, LanguageFile};
use crate::naming;
use crate::notation;
use crate::order;
use crate::path;
use crate::path::ProjectPath;
use crate::saving;
use crate::snbt::Value;
use crate::text;
use vstd::prelude::*;

verus! {

// ---------------------------------------------------------------------------
// Files of a folder
// ---------------------------------------------------------------------------

/// The path ends in a name that has something before the ending.
pub open spec fn has_ending(place: Seq<path::PartModel>, ending: Seq<char>) -> bool {
    path::last_name(place) matches Some(name) && name.len() > ending.len() && text::has_suffix(
        name,
        ending,
    )
}

/// The paths with an ending.
pub open spec fn with_ending(places: Seq<Seq<path::PartModel>>, ending: Seq<char>) -> Seq<
    Seq<path::PartModel>,
>
    decreases places.len(),
{
    if places.len() == 0 {
        Seq::empty()
    } else if has_ending(places.last(), ending) {
        with_ending(places.drop_last(), ending).push(places.last())
    } else {
        with_ending(places.drop_last(), ending)
    }
}

/// Whether a path ends in a name that has something before the ending.
pub fn is_file_ending_in(place: &ProjectPath, ending: &str) -> (r: bool)
    ensures
        r == has_ending(place@, ending@),
{
    match place.file_name() {
        Some(name) => {
            text::chars_of(name.as_str()).len() > text::chars_of(ending).len() && text::ends_with(
                name.as_str(),
                ending,
            )
        },
        None => false,
    }
}

/// The notation files among the paths, in the order of their paths.
pub fn snbt_files(paths: Vec<ProjectPath>) -> (r: Vec<ProjectPath>)
    ensures
        order::views(r@) == order::sorted_by(
            with_ending(order::views(paths@), ".snbt"@),
            order::ranking::<ProjectPath>(),
        ),
{
    let ghost all = order::views(paths@);
    let mut found: Vec<ProjectPath> = Vec::new();
    let mut i: usize = 0;
    assert(all.take(0) =~= Seq::empty());
    assert(order::views(found@) =~= Seq::empty());
    while i < paths.len()
        invariant
            i <= paths@.len(),
            all == order::views(paths@),
            order::views(found@) == with_ending(all.take(i as int), ".snbt"@),
        decreases paths@.len() - i,
    {
        let ghost before = order::views(found@);
        assert(all.take(i + 1).drop_last() =~= all.take(i as int));
        assert(all.take(i + 1).last() == paths@[i as int]@);
        if is_file_ending_in(&paths[i], ".snbt") {
            found.push(paths[i].copy());
            assert(order::views(found@) =~= before.push(paths@[i as int]@));
        }
        i += 1;
    }
    assert(all.take(i as int) =~= all);
    order::sort(found)
}

// ---------------------------------------------------------------------------
// Where it is saved
// ---------------------------------------------------------------------------

/// The number of the first name for an imported project that is not taken.
pub open spec fn is_first_free_name(
    taken: Seq<Seq<char>>,
    name: Seq<char>,
    suffix: nat,
) -> bool {
    &&& suffix >= 1
    &&& !taken.contains(saving::edited_name(name, suffix))
    &&& forall|k: nat| 1 <= k < suffix ==> taken.contains(#[trigger] saving::edited_name(name, k))
}

proof fn lemma_edited_names_differ(name: Seq<char>, j: nat, k: nat)
    requires
        1 <= j < k,
    ensures
        saving::edited_name(name, j) != saving::edited_name(name, k),
{
    reveal_strlit("_edited");
    reveal_strlit("_edited_");
    let x = saving::edited_name(name, j);
    let y = saving::edited_name(name, k);
    let n = name.len() as int + 8;
    if j == 1 {
        assert(x.len() == name.len() + 7);
        assert(y.len() >= name.len() + 8);
    } else if x == y {
        assert(x.skip(n) =~= compose::decimal(j));
        assert(y.skip(n) =~= compose::decimal(k));
        naming::lemma_decimal_injective(j, k);
    }
}

/// Where an imported project is saved: the first of the places that are tried whose name is not
/// taken.
pub fn import_destination(source: &ProjectPath, taken: &Vec<String>) -> (r: ProjectPath)
    ensures
        exists|suffix: nat|
            is_first_free_name(
                text::texts(taken@),
                saving::name_or(saving::project_folder(source@), "ftbquests"@),
                suffix,
            ) && r@ == path::inside(
                saving::surrounding(saving::project_folder(source@)),
                #[trigger] saving::edited_name(saving::name_or(saving::project_folder(source@), "ftbquests"@), suffix),
            ),
{
    let ghost names = text::texts(taken@);
    let ghost name = saving::name_or(saving::project_folder(source@), "ftbquests"@);
    let ghost tried = |k: nat| saving::edited_name(name, k);
    let n: usize = taken.len();
    let mut suffix: u128 = 1;
    loop
        invariant
            names == text::texts(taken@),
            name == saving::name_or(saving::project_folder(source@), "ftbquests"@),
            tried == (|k: nat| saving::edited_name(name, k)),
            1 <= suffix <= names.len() + 1,
            names.len() == n,
            forall|k: nat| 1 <= k < suffix ==> names.contains(#[trigger] saving::edited_name(name, k)),
        decreases names.len() + 1 - suffix,
    {
        let place = saving::import_candidate(source, suffix);
        let last = match place.file_name() {
            Some(last) => last,
            None => String::new(),
        };
        assert(place@.last() == path::PartModel::Name(saving::edited_name(name, suffix as nat)));
        assert(last@ == saving::edited_name(name, suffix as nat));
        if !compose::holds_text(taken, last.as_str()) {
            assert(is_first_free_name(names, name, suffix as nat));
            return place;
        }
        proof {
            assert forall|k: nat| 1 <= k <= suffix implies names.contains(#[trigger] tried(k)) by {
                assert(names.contains(saving::edited_name(name, k)));
            }
            assert forall|j: nat, k: nat| 1 <= j < k <= suffix implies #[trigger] tried(j)
                != #[trigger] tried(k) by {
                lemma_edited_names_differ(name, j, k);
            }
            naming::lemma_names_run_out(names, tried, suffix as nat);
        }
        suffix += 1;
    }
}

// ---------------------------------------------------------------------------
// Files of a book
// ---------------------------------------------------------------------------

/// The files of a book as far as they could be read: the name of the folder, its path as it is
/// shown, the files of the data and of the groups, the files that are kept, those of the
/// languages up to one that could not be read and why it could not, and those of the chapters.
pub struct BookFiles {
    pub source_name: Option<String>,
    pub root: String,
    pub data: SourceFile,
    pub groups: Option<SourceFile>,
    pub preserved_files: Result<Vec<PreservedFile>, String>,
    pub languages: Vec<LanguageFile>,
    pub language_failure: Option<String>,
    pub chapters: Result<Vec<SourceFile>, String>,
}

/// The mathematical form of the files of a book.
pub ghost struct FilesModel {
    pub source_name: Option<Seq<char>>,
    pub root: Seq<char>,
    pub data: book::SourceModel,
    pub groups: Option<book::SourceModel>,
    pub preserved_files: Result<Seq<editor::FileModel>, Seq<char>>,
    pub languages: Seq<languages::LanguageFileModel>,
    pub language_failure: Option<Seq<char>>,
    pub chapters: Result<Seq<book::SourceModel>, Seq<char>>,
}

impl View for BookFiles {
    type V = FilesModel;

    open spec fn view(&self) -> FilesModel {
        FilesModel {
            source_name: text::opt_text(self.source_name),
            root: self.root@,
            data: self.data@,
            groups: match self.groups {
                Some(file) => Some(file@),
                None => None,
            },
            preserved_files: match self.preserved_files {
                Ok(files) => Ok(order::views(files@)),
                Err(message) => Err(message@),
            },
            languages: order::views(self.languages@),
            language_failure: text::opt_text(self.language_failure),
            chapters: match self.chapters {
                Ok(files) => Ok(order::views(files@)),
                Err(message) => Err(message@),
            },
        }
    }
}

/// Why a file is of no use: it could not be read, or what it holds is no notation.
pub ghost enum FaultModel {
    Io(Seq<char>),
    Parse(Seq<char>, Seq<char>, notation::Fault),
}

/// Why a file of notation is of no use.
pub open spec fn file_fault(file: book::SourceModel) -> Option<FaultModel> {
    match file.contents {
        Err(message) => Some(FaultModel::Io(message)),
        Ok(source) => match notation::document(source) {
            Ok(_) => None,
            Err(fault) => Some(FaultModel::Parse(file.path, source, fault)),
        },
    }
}

/// Why the first of the files that is of no use is so.
pub open spec fn files_fault(files: Seq<book::SourceModel>) -> Option<FaultModel>
    decreases files.len(),
{
    if files.len() == 0 {
        None
    } else {
        match files_fault(files.drop_last()) {
            Some(fault) => Some(fault),
            None => file_fault(files.last()),
        }
    }
}

/// Why the kept files could not be read.
pub open spec fn kept_fault(files: FilesModel) -> Option<FaultModel> {
    match files.preserved_files {
        Ok(_) => None,
        Err(message) => Some(FaultModel::Io(message)),
    }
}

/// Why a language is of no use.
pub open spec fn languages_fault(files: FilesModel) -> Option<FaultModel> {
    match languages::language_fault(files.languages) {
        Some(fault) => Some(FaultModel::Io(languages::language_error(fault))),
        None => match files.language_failure {
            Some(message) => Some(FaultModel::Io(message)),
            None => None,
        },
    }
}

/// Why the chapters could not be listed, or the first that is of no use is so.
pub open spec fn chapters_fault(files: FilesModel) -> Option<FaultModel> {
    match files.chapters {
        Ok(chapters) => files_fault(chapters),
        Err(message) => Some(FaultModel::Io(message)),
    }
}

/// The first fault in the order in which the files are read: the data, the groups, the kept
/// files, the languages, the chapters.
pub open spec fn first_fault(files: FilesModel) -> Option<FaultModel> {
    match file_fault(files.data) {
        Some(fault) => Some(fault),
        None => match (match files.groups {
            Some(groups) => file_fault(groups),
            None => None,
        }) {
            Some(fault) => Some(fault),
            None => match kept_fault(files) {
                Some(fault) => Some(fault),
                None => match languages_fault(files) {
                    Some(fault) => Some(fault),
                    None => chapters_fault(files),
                },
            },
        },
    }
}

/// The error is that of the fault.
pub open spec fn tells(error: EditorError, fault: FaultModel) -> bool {
    match fault {
        FaultModel::Io(message) => error matches EditorError::Io(m) && m@ == message,
        FaultModel::Parse(place, source, fault) => error matches EditorError::Parse {
            path: p,
            source: e,
        } && p@ == place && e.tells(source, fault),
    }
}

/// The value in a file of notation.
pub open spec fn value_in(file: book::SourceModel) -> notation::Node {
    notation::document(file.contents->Ok_0)->Ok_0
}

/// The values of chapters, with the names of their files.
pub open spec fn sources_in(files: Seq<book::SourceModel>) -> Seq<editor::ChapterSourceModel> {
    Seq::new(
        files.len(),
        |i: int| editor::ChapterSourceModel { stem: files[i].stem, value: value_in(files[i]) },
    )
}

/// What the files of a book hold.
pub open spec fn parts_in(files: FilesModel) -> editor::PartsModel {
    editor::PartsModel {
        source_name: files.source_name,
        root: files.root,
        data: value_in(files.data),
        groups: match files.groups {
            Some(groups) => Some(value_in(groups)),
            None => None,
        },
        preserved_files: files.preserved_files->Ok_0,
        translations: languages::catalog_of(languages::languages_in(files.languages)),
        chapters: sources_in(files.chapters->Ok_0),
    }
}

fn read_file(file: SourceFile) -> (r: Result<Value, EditorError>)
    ensures
        match (r, file_fault(file@)) {
            (Ok(value), None) => value@ == value_in(file@),
            (Err(error), Some(fault)) => tells(error, fault),
            _ => false,
        },
{
    read_snbt(file.path.as_str(), file.contents)
}

fn read_chapters(listed: Vec<SourceFile>) -> (r: Result<Vec<ChapterSource>, EditorError>)
    ensures
        match (r, files_fault(order::views(listed@))) {
            (Ok(chapters), None) => order::views(chapters@) == sources_in(order::views(listed@)),
            (Err(error), Some(fault)) => tells(error, fault),
            _ => false,
        },
{
    let ghost all = order::views(listed@);
    let mut files = listed;
    let mut chapters: Vec<ChapterSource> = Vec::new();
    let n: usize = files.len();
    let mut i: usize = 0;
    assert(all.take(0) =~= Seq::empty());
    assert(order::views(chapters@) =~= sources_in(all.take(0)));
    while i < n
        invariant
            i <= n == all.len(),
            all == order::views(listed@),
            files@.len() == n - i,
            forall|k: int| 0 <= k < files@.len() ==> (#[trigger] files@[k])@ == all[i + k],
            files_fault(all.take(i as int)) is None,
            order::views(chapters@) == sources_in(all.take(i as int)),
        decreases n - i,
    {
        let ghost before = order::views(chapters@);
        let ghost left = files@;
        let file = files.remove(0);
        assert(file@ == all[i as int]);
        let stem = match &file.stem {
            Some(stem) => Some(stem.clone()),
            None => None,
        };
        assert(all.take(i + 1).drop_last() =~= all.take(i as int));
        assert(all.take(i + 1).last() == all[i as int]);
        match read_file(file) {
            Ok(value) => {
                let source = ChapterSource { stem, value };
                let ghost model = source@;
                chapters.push(source);
                assert(order::views(chapters@) =~= before.push(model));
                assert(order::views(chapters@) =~= sources_in(all.take(i + 1)));
            },
            Err(error) => {
                proof {
                    lemma_fault_stays(all, i + 1);
                }
                return Err(error);
            },
        }
        assert forall|k: int| 0 <= k < files@.len() implies (#[trigger] files@[k])@ == all[i + 1
            + k] by {
            assert(files@[k] == left[k + 1]);
        }
        i += 1;
    }
    assert(all.take(i as int) =~= all);
    Ok(chapters)
}

proof fn lemma_fault_stays(files: Seq<book::SourceModel>, n: int)
    requires
        0 <= n <= files.len(),
        files_fault(files.take(n)) is Some,
    ensures
        files_fault(files) == files_fault(files.take(n)),
    decreases files.len(),
{
    if n < files.len() {
        assert(files.drop_last().take(n) =~= files.take(n));
        lemma_fault_stays(files.drop_last(), n);
    } else {
        assert(files.take(n) =~= files);
    }
}

/// What the files of a book hold, or the first fault in the order in which they are read.
pub fn open_parts(files: BookFiles) -> (r: Result<BookParts, EditorError>)
    ensures
        match (r, first_fault(files@)) {
            (Ok(parts), None) => parts@ == parts_in(files@),
            (Err(error), Some(fault)) => tells(error, fault),
            _ => false,
        },
{
    let ghost model = files@;
    let data = match read_file(files.data) {
        Ok(value) => value,
        Err(error) => {
            return Err(error);
        },
    };
    let groups = match files.groups {
        Some(file) => {
            match read_file(file) {
                Ok(value) => Some(value),
                Err(error) => {
                    return Err(error);
                },
            }
        },
        None => None,
    };
    let preserved_files = match files.preserved_files {
        Ok(kept) => kept,
        Err(message) => {
            return Err(EditorError::Io(message));
        },
    };
    let translations = match load_translations(&files.languages) {
        Ok(translations) => translations,
        Err(message) => {
            return Err(EditorError::Io(message));
        },
    };
    match files.language_failure {
        Some(message) => {
            return Err(EditorError::Io(message));
        },
        None => {},
    }
    let listed = match files.chapters {
        Ok(listed) => listed,
        Err(message) => {
            return Err(EditorError::Io(message));
        },
    };
    let chapters = match read_chapters(listed) {
        Ok(chapters) => chapters,
        Err(error) => {
            return Err(error);
        },
    };
    Ok(
        BookParts {
            source_name: files.source_name,
            root: files.root,
            data,
            groups,
            preserved_files,
            translations,
            chapters,
        },
    )
}

} // verus!
