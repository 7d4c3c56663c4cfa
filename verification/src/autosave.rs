//! Snapshots of a book: when they are made, and the steps that put a new one in the place of the
//! one before it.

use crate::path;
use crate::path::ProjectPath;
use crate::saving;
use crate::saving::sibling;
use crate::text;
use vstd::prelude::*;

verus! {

/// The time between two snapshots, in nanoseconds.
pub const AUTOSAVE_INTERVAL: u64 = 300_000_000_000;

/// What is to be done about snapshots now.
#[derive(Debug, Clone, Copy, PartialEq, Eq, Structural)]
pub enum AutosaveTick {
    /// Nothing.
    Off,
    /// A snapshot is due.
    Now,
    /// A snapshot is due after this many nanoseconds.
    Later(u64),
}

/// What is to be done about snapshots, this many nanoseconds after the last one.
pub fn tick_autosave(enabled: bool, elapsed: u64) -> (r: AutosaveTick)
    ensures
        !enabled ==> r == AutosaveTick::Off,
        enabled && elapsed >= AUTOSAVE_INTERVAL ==> r == AutosaveTick::Now,
        enabled && elapsed < AUTOSAVE_INTERVAL ==> r == AutosaveTick::Later(
            (AUTOSAVE_INTERVAL - elapsed) as u64,
        ),
{
    if !enabled {
        AutosaveTick::Off
    } else if elapsed >= AUTOSAVE_INTERVAL {
        AutosaveTick::Now
    } else {
        AutosaveTick::Later(AUTOSAVE_INTERVAL - elapsed)
    }
}

// ---------------------------------------------------------------------------
// The folders
// ---------------------------------------------------------------------------

/// The folders of a snapshot: the one that is being written, the current one, and the one before.
#[derive(Debug, Clone)]
pub struct SnapshotFolders {
    pub temporary: ProjectPath,
    pub current: ProjectPath,
    pub previous: ProjectPath,
}

/// A folder that stands beside another, with its name and an ending.
pub open spec fn beside(folder: Seq<path::PartModel>, ending: Seq<char>) -> Seq<path::PartModel> {
    path::inside(
        saving::surrounding(folder),
        saving::name_or(folder, "ftbquests_autosave"@) + ending,
    )
}

/// The folders of a snapshot.
pub fn snapshot_folders(destination: &ProjectPath) -> (r: SnapshotFolders)
    ensures
        r.temporary@ == beside(destination@, "_temporary"@),
        r.current@ == destination@,
        r.previous@ == beside(destination@, "_previous"@),
{
    SnapshotFolders {
        temporary: sibling(destination, "ftbquests_autosave", "_temporary"),
        current: destination.copy(),
        previous: sibling(destination, "ftbquests_autosave", "_previous"),
    }
}

// ---------------------------------------------------------------------------
// The steps
// ---------------------------------------------------------------------------

/// One of the folders of a snapshot.
#[derive(Debug, Clone, Copy, PartialEq, Eq, Structural)]
pub enum Place {
    Temporary,
    Current,
    Previous,
}

/// What is to be done next.
#[derive(Debug, Clone, Copy, PartialEq, Eq, Structural)]
pub enum SnapshotAction {
    /// See whether a folder exists.
    Look(Place),
    /// Remove a folder with all that is in it.
    Remove(Place),
    /// Save the book in the folder for what is being written.
    Save,
    /// Give a folder another place.
    Rename(Place, Place),
    /// Nothing more.
    Stop,
}

/// What came of it.
#[derive(Debug, Clone)]
pub enum SnapshotEvent {
    Exists(bool),
    Done,
    Failed(String),
}

/// How far a snapshot has come.
#[derive(Debug, Clone)]
pub enum Snapshot {
    LookForTemporary,
    RemoveTemporary,
    Save,
    LookForPrevious,
    RemovePrevious,
    LookForCurrent,
    KeepCurrent,
    Publish,
    LookForKept(String),
    LookForPublished(String),
    Restore(String),
    Finished(Option<String>),
}

/// The mathematical form of how far a snapshot has come.
pub ghost enum SnapshotModel {
    LookForTemporary,
    RemoveTemporary,
    Save,
    LookForPrevious,
    RemovePrevious,
    LookForCurrent,
    KeepCurrent,
    Publish,
    LookForKept(Seq<char>),
    LookForPublished(Seq<char>),
    Restore(Seq<char>),
    Finished(Option<Seq<char>>),
}

/// The mathematical form of what came of an action.
pub ghost enum EventModel {
    Exists(bool),
    Done,
    Failed(Seq<char>),
}

impl View for Snapshot {
    type V = SnapshotModel;

    open spec fn view(&self) -> SnapshotModel {
        match self {
            Snapshot::LookForTemporary => SnapshotModel::LookForTemporary,
            Snapshot::RemoveTemporary => SnapshotModel::RemoveTemporary,
            Snapshot::Save => SnapshotModel::Save,
            Snapshot::LookForPrevious => SnapshotModel::LookForPrevious,
            Snapshot::RemovePrevious => SnapshotModel::RemovePrevious,
            Snapshot::LookForCurrent => SnapshotModel::LookForCurrent,
            Snapshot::KeepCurrent => SnapshotModel::KeepCurrent,
            Snapshot::Publish => SnapshotModel::Publish,
            Snapshot::LookForKept(error) => SnapshotModel::LookForKept(error@),
            Snapshot::LookForPublished(error) => SnapshotModel::LookForPublished(error@),
            Snapshot::Restore(error) => SnapshotModel::Restore(error@),
            Snapshot::Finished(error) => SnapshotModel::Finished(text::opt_text(*error)),
        }
    }
}

impl View for SnapshotEvent {
    type V = EventModel;

    open spec fn view(&self) -> EventModel {
        match self {
            SnapshotEvent::Exists(yes) => EventModel::Exists(*yes),
            SnapshotEvent::Done => EventModel::Done,
            SnapshotEvent::Failed(error) => EventModel::Failed(error@),
        }
    }
}

/// What is to be done at a point.
pub open spec fn action_at(s: SnapshotModel) -> SnapshotAction {
    match s {
        SnapshotModel::LookForTemporary => SnapshotAction::Look(Place::Temporary),
        SnapshotModel::RemoveTemporary => SnapshotAction::Remove(Place::Temporary),
        SnapshotModel::Save => SnapshotAction::Save,
        SnapshotModel::LookForPrevious => SnapshotAction::Look(Place::Previous),
        SnapshotModel::RemovePrevious => SnapshotAction::Remove(Place::Previous),
        SnapshotModel::LookForCurrent => SnapshotAction::Look(Place::Current),
        SnapshotModel::KeepCurrent => SnapshotAction::Rename(Place::Current, Place::Previous),
        SnapshotModel::Publish => SnapshotAction::Rename(Place::Temporary, Place::Current),
        SnapshotModel::LookForKept(_) => SnapshotAction::Look(Place::Previous),
        SnapshotModel::LookForPublished(_) => SnapshotAction::Look(Place::Current),
        SnapshotModel::Restore(_) => SnapshotAction::Rename(Place::Previous, Place::Current),
        SnapshotModel::Finished(_) => SnapshotAction::Stop,
    }
}

/// The point after an action. A failure ends the snapshot with its error; where the new snapshot
/// cannot be put in its place, the one before it is put back first. What does not answer the
/// action changes nothing.
pub open spec fn after(s: SnapshotModel, e: EventModel) -> SnapshotModel {
    match (s, e) {
        (SnapshotModel::LookForTemporary, EventModel::Exists(yes)) => if yes {
            SnapshotModel::RemoveTemporary
        } else {
            SnapshotModel::Save
        },
        (SnapshotModel::RemoveTemporary, EventModel::Done) => SnapshotModel::Save,
        (SnapshotModel::RemoveTemporary, EventModel::Failed(error)) => SnapshotModel::Finished(
            Some(error),
        ),
        (SnapshotModel::Save, EventModel::Done) => SnapshotModel::LookForPrevious,
        (SnapshotModel::Save, EventModel::Failed(error)) => SnapshotModel::Finished(Some(error)),
        (SnapshotModel::LookForPrevious, EventModel::Exists(yes)) => if yes {
            SnapshotModel::RemovePrevious
        } else {
            SnapshotModel::LookForCurrent
        },
        (SnapshotModel::RemovePrevious, EventModel::Done) => SnapshotModel::LookForCurrent,
        (SnapshotModel::RemovePrevious, EventModel::Failed(error)) => SnapshotModel::Finished(
            Some(error),
        ),
        (SnapshotModel::LookForCurrent, EventModel::Exists(yes)) => if yes {
            SnapshotModel::KeepCurrent
        } else {
            SnapshotModel::Publish
        },
        (SnapshotModel::KeepCurrent, EventModel::Done) => SnapshotModel::Publish,
        (SnapshotModel::KeepCurrent, EventModel::Failed(error)) => SnapshotModel::Finished(
            Some(error),
        ),
        (SnapshotModel::Publish, EventModel::Done) => SnapshotModel::Finished(None),
        (SnapshotModel::Publish, EventModel::Failed(error)) => SnapshotModel::LookForKept(error),
        (SnapshotModel::LookForKept(error), EventModel::Exists(yes)) => if yes {
            SnapshotModel::LookForPublished(error)
        } else {
            SnapshotModel::Finished(Some(error))
        },
        (SnapshotModel::LookForPublished(error), EventModel::Exists(yes)) => if yes {
            SnapshotModel::Finished(Some(error))
        } else {
            SnapshotModel::Restore(error)
        },
        (SnapshotModel::Restore(error), EventModel::Done) => SnapshotModel::Finished(Some(error)),
        (SnapshotModel::Restore(error), EventModel::Failed(_)) => SnapshotModel::Finished(
            Some(error),
        ),
        (other, _) => other,
    }
}

impl Snapshot {
    /// A snapshot that is to be made.
    pub fn start() -> (r: Snapshot)
        ensures
            r@ == SnapshotModel::LookForTemporary,
    {
        Snapshot::LookForTemporary
    }

    /// What is to be done next.
    pub fn action(&self) -> (r: SnapshotAction)
        ensures
            r == action_at(self@),
    {
        match self {
            Snapshot::LookForTemporary => SnapshotAction::Look(Place::Temporary),
            Snapshot::RemoveTemporary => SnapshotAction::Remove(Place::Temporary),
            Snapshot::Save => SnapshotAction::Save,
            Snapshot::LookForPrevious => SnapshotAction::Look(Place::Previous),
            Snapshot::RemovePrevious => SnapshotAction::Remove(Place::Previous),
            Snapshot::LookForCurrent => SnapshotAction::Look(Place::Current),
            Snapshot::KeepCurrent => SnapshotAction::Rename(Place::Current, Place::Previous),
            Snapshot::Publish => SnapshotAction::Rename(Place::Temporary, Place::Current),
            Snapshot::LookForKept(_) => SnapshotAction::Look(Place::Previous),
            Snapshot::LookForPublished(_) => SnapshotAction::Look(Place::Current),
            Snapshot::Restore(_) => SnapshotAction::Rename(Place::Previous, Place::Current),
            Snapshot::Finished(_) => SnapshotAction::Stop,
        }
    }

    /// The point after the action.
    pub fn next(self, event: SnapshotEvent) -> (r: Snapshot)
        ensures
            r@ == after(self@, event@),
    {
        match (self, event) {
            (Snapshot::LookForTemporary, SnapshotEvent::Exists(yes)) => if yes {
                Snapshot::RemoveTemporary
            } else {
                Snapshot::Save
            },
            (Snapshot::RemoveTemporary, SnapshotEvent::Done) => Snapshot::Save,
            (Snapshot::RemoveTemporary, SnapshotEvent::Failed(error)) => Snapshot::Finished(
                Some(error),
            ),
            (Snapshot::Save, SnapshotEvent::Done) => Snapshot::LookForPrevious,
            (Snapshot::Save, SnapshotEvent::Failed(error)) => Snapshot::Finished(Some(error)),
            (Snapshot::LookForPrevious, SnapshotEvent::Exists(yes)) => if yes {
                Snapshot::RemovePrevious
            } else {
                Snapshot::LookForCurrent
            },
            (Snapshot::RemovePrevious, SnapshotEvent::Done) => Snapshot::LookForCurrent,
            (Snapshot::RemovePrevious, SnapshotEvent::Failed(error)) => Snapshot::Finished(
                Some(error),
            ),
            (Snapshot::LookForCurrent, SnapshotEvent::Exists(yes)) => if yes {
                Snapshot::KeepCurrent
            } else {
                Snapshot::Publish
            },
            (Snapshot::KeepCurrent, SnapshotEvent::Done) => Snapshot::Publish,
            (Snapshot::KeepCurrent, SnapshotEvent::Failed(error)) => Snapshot::Finished(
                Some(error),
            ),
            (Snapshot::Publish, SnapshotEvent::Done) => Snapshot::Finished(None),
            (Snapshot::Publish, SnapshotEvent::Failed(error)) => Snapshot::LookForKept(error),
            (Snapshot::LookForKept(error), SnapshotEvent::Exists(yes)) => if yes {
                Snapshot::LookForPublished(error)
            } else {
                Snapshot::Finished(Some(error))
            },
            (Snapshot::LookForPublished(error), SnapshotEvent::Exists(yes)) => if yes {
                Snapshot::Finished(Some(error))
            } else {
                Snapshot::Restore(error)
            },
            (Snapshot::Restore(error), SnapshotEvent::Done) => Snapshot::Finished(Some(error)),
            (Snapshot::Restore(error), SnapshotEvent::Failed(_)) => Snapshot::Finished(
                Some(error),
            ),
            (other, _) => other,
        }
    }
}

// ---------------------------------------------------------------------------
// Laws
// ---------------------------------------------------------------------------

/// What stands in the three folders, if anything does.
pub ghost struct Disk {
    pub temporary: Option<int>,
    pub current: Option<int>,
    pub previous: Option<int>,
}

/// What stands in a folder.
pub open spec fn standing(disk: Disk, place: Place) -> Option<int> {
    match place {
        Place::Temporary => disk.temporary,
        Place::Current => disk.current,
        Place::Previous => disk.previous,
    }
}

/// The disk with something else in a folder.
pub open spec fn with_standing(disk: Disk, place: Place, what: Option<int>) -> Disk {
    match place {
        Place::Temporary => Disk { temporary: what, ..disk },
        Place::Current => Disk { current: what, ..disk },
        Place::Previous => Disk { previous: what, ..disk },
    }
}

/// What an action does to a disk, and what comes of it, when the book is `book`. What fails leaves
/// the folders that it does not remove or save as they were.
pub open spec fn performed(
    disk: Disk,
    action: SnapshotAction,
    book: int,
    failure: Option<Seq<char>>,
    rest: Option<int>,
) -> (Disk, EventModel) {
    match action {
        SnapshotAction::Look(place) => (disk, EventModel::Exists(standing(disk, place) is Some)),
        SnapshotAction::Remove(place) => match failure {
            Some(error) => (with_standing(disk, place, rest), EventModel::Failed(error)),
            None => (with_standing(disk, place, None), EventModel::Done),
        },
        SnapshotAction::Save => match failure {
            Some(error) => (Disk { temporary: rest, ..disk }, EventModel::Failed(error)),
            None => (Disk { temporary: Some(book), ..disk }, EventModel::Done),
        },
        SnapshotAction::Rename(from, to) => match failure {
            Some(error) => (disk, EventModel::Failed(error)),
            None => (
                with_standing(with_standing(disk, to, standing(disk, from)), from, None),
                EventModel::Done,
            ),
        },
        SnapshotAction::Stop => (disk, EventModel::Done),
    }
}

/// The disk and the point after some steps. What fails at each step, and what a failure leaves
/// behind, is given.
pub open spec fn snapshot_run(
    disk: Disk,
    s: SnapshotModel,
    book: int,
    failures: Seq<Option<Seq<char>>>,
    rests: Seq<Option<int>>,
) -> (Disk, SnapshotModel)
    decreases failures.len(),
{
    if failures.len() == 0 {
        (disk, s)
    } else {
        let (next_disk, e) = performed(
            disk,
            action_at(s),
            book,
            failures.first(),
            rests[0],
        );
        snapshot_run(next_disk, after(s, e), book, failures.drop_first(), rests.drop_first())
    }
}

/// How many steps are left at most.
pub open spec fn steps_left(s: SnapshotModel) -> nat {
    match s {
        SnapshotModel::LookForTemporary => 11,
        SnapshotModel::RemoveTemporary => 10,
        SnapshotModel::Save => 9,
        SnapshotModel::LookForPrevious => 8,
        SnapshotModel::RemovePrevious => 7,
        SnapshotModel::LookForCurrent => 6,
        SnapshotModel::KeepCurrent => 5,
        SnapshotModel::Publish => 4,
        SnapshotModel::LookForKept(_) => 3,
        SnapshotModel::LookForPublished(_) => 2,
        SnapshotModel::Restore(_) => 1,
        SnapshotModel::Finished(_) => 0,
    }
}

/// What holds at each point of a snapshot of a book, if `old` stood as the current one before.
spec fn kept(disk: Disk, s: SnapshotModel, book: int, old: Option<int>) -> bool {
    match s {
        SnapshotModel::LookForTemporary | SnapshotModel::RemoveTemporary
        | SnapshotModel::Save => disk.current == old,
        SnapshotModel::LookForPrevious | SnapshotModel::RemovePrevious => disk.current == old
            && disk.temporary == Some(book),
        SnapshotModel::LookForCurrent => disk.current == old && disk.temporary == Some(book)
            && disk.previous is None,
        SnapshotModel::KeepCurrent => disk.current == old && old is Some && disk.temporary == Some(
            book,
        ) && disk.previous is None,
        SnapshotModel::Publish | SnapshotModel::LookForKept(_) => disk.current is None
            && disk.previous == old && disk.temporary == Some(book),
        SnapshotModel::LookForPublished(_) | SnapshotModel::Restore(_) => disk.current is None
            && disk.previous == old && old is Some,
        SnapshotModel::Finished(None) => disk == (Disk {
            temporary: None,
            current: Some(book),
            previous: old,
        }),
        SnapshotModel::Finished(Some(_)) => disk.current == old || (disk.current is None
            && disk.previous == old),
    }
}

proof fn lemma_kept(
    disk: Disk,
    s: SnapshotModel,
    book: int,
    old: Option<int>,
    failures: Seq<Option<Seq<char>>>,
    rests: Seq<Option<int>>,
)
    requires
        kept(disk, s, book, old),
        rests.len() == failures.len(),
        failures.len() >= steps_left(s),
    ensures
        ({
            let (end, t) = snapshot_run(disk, s, book, failures, rests);
            t is Finished && kept(end, t, book, old)
        }),
    decreases failures.len(),
{
    if failures.len() > 0 {
        let (next_disk, e) = performed(disk, action_at(s), book, failures.first(), rests[0]);
        let t = after(s, e);
        assert(kept(next_disk, t, book, old));
        assert(steps_left(t) < steps_left(s) || (s is Finished && t is Finished));
        lemma_kept(next_disk, t, book, old, failures.drop_first(), rests.drop_first());
    }
}

/// A snapshot ends after at most eleven steps. If it succeeds, the book stands as the current
/// snapshot and the one that stood there before as the previous one. If it fails, at whatever
/// step, what stood as the current snapshot is still there, or stands as the previous one.
pub proof fn law_snapshot_keeps_the_one_before(
    disk: Disk,
    book: int,
    failures: Seq<Option<Seq<char>>>,
    rests: Seq<Option<int>>,
)
    requires
        failures.len() >= 11,
        rests.len() == failures.len(),
    ensures
        ({
            let (end, t) = snapshot_run(
                disk,
                SnapshotModel::LookForTemporary,
                book,
                failures,
                rests,
            );
            match t {
                SnapshotModel::Finished(None) => end == (Disk {
                    temporary: None,
                    current: Some(book),
                    previous: disk.current,
                }),
                SnapshotModel::Finished(Some(_)) => end.current == disk.current || (
                end.current is None && end.previous == disk.current),
                _ => false,
            }
        }),
{
    lemma_kept(disk, SnapshotModel::LookForTemporary, book, disk.current, failures, rests);
}

proof fn lemma_succeeds(
    disk: Disk,
    s: SnapshotModel,
    book: int,
    failures: Seq<Option<Seq<char>>>,
    rests: Seq<Option<int>>,
)
    requires
        !(s is LookForKept) && !(s is LookForPublished) && !(s is Restore),
        s matches SnapshotModel::Finished(error) ==> error is None,
        rests.len() == failures.len(),
        failures.len() >= steps_left(s),
        forall|i: int| 0 <= i < failures.len() ==> (#[trigger] failures[i]) is None,
    ensures
        snapshot_run(disk, s, book, failures, rests).1 == SnapshotModel::Finished(None),
    decreases failures.len(),
{
    if failures.len() > 0 {
        assert(failures[0] is None);
        let (next_disk, e) = performed(disk, action_at(s), book, failures.first(), rests[0]);
        let t = after(s, e);
        assert(steps_left(t) < steps_left(s) || (s is Finished && t is Finished));
        lemma_succeeds(next_disk, t, book, failures.drop_first(), rests.drop_first());
    }
}

/// A snapshot of which no step fails succeeds.
pub proof fn law_snapshot_succeeds(
    disk: Disk,
    book: int,
    failures: Seq<Option<Seq<char>>>,
    rests: Seq<Option<int>>,
)
    requires
        failures.len() >= 11,
        rests.len() == failures.len(),
        forall|i: int| 0 <= i < failures.len() ==> (#[trigger] failures[i]) is None,
    ensures
        snapshot_run(disk, SnapshotModel::LookForTemporary, book, failures, rests).1
            == SnapshotModel::Finished(None),
{
    lemma_succeeds(disk, SnapshotModel::LookForTemporary, book, failures, rests);
}

} // verus!
