//! Paths of folders and files, part by part.

use crate::order;
use crate::order::Ranked;
use crate::text;
use vstd::prelude::*;

verus! {

/// A part of a path: where it starts, a step that stays, a step up, or a name.
#[derive(Debug, Clone, PartialEq, Eq)]
pub enum PathPart {
    Root(String),
    Here,
    Up,
    Name(String),
}

/// The mathematical form of a part.
pub ghost enum PartModel {
    Root(Seq<char>),
    Here,
    Up,
    Name(Seq<char>),
}

impl View for PathPart {
    type V = PartModel;

    open spec fn view(&self) -> PartModel {
        match self {
            PathPart::Root(s) => PartModel::Root(s@),
            PathPart::Here => PartModel::Here,
            PathPart::Up => PartModel::Up,
            PathPart::Name(s) => PartModel::Name(s@),
        }
    }
}

/// A path.
#[derive(Debug, Clone, PartialEq, Eq)]
pub struct ProjectPath {
    pub parts: Vec<PathPart>,
}

impl View for ProjectPath {
    type V = Seq<PartModel>;

    open spec fn view(&self) -> Seq<PartModel> {
        order::views(self.parts@)
    }
}

/// The path of a name in a folder.
pub open spec fn inside(path: Seq<PartModel>, name: Seq<char>) -> Seq<PartModel> {
    path.push(PartModel::Name(name))
}

/// The folder of a path.
pub open spec fn folder(path: Seq<PartModel>) -> Option<Seq<PartModel>> {
    if path.len() == 0 || path.last() is Root {
        None
    } else {
        Some(path.drop_last())
    }
}

/// A path in a folder; one that has a start of its own stands by itself.
pub open spec fn path_inside(path: Seq<PartModel>, relative: Seq<PartModel>) -> Seq<PartModel> {
    if relative.len() > 0 && relative[0] is Root {
        relative
    } else {
        path + relative
    }
}

/// The name in which a path ends.
pub open spec fn last_name(path: Seq<PartModel>) -> Option<Seq<char>> {
    if path.len() == 0 {
        None
    } else {
        match path.last() {
            PartModel::Name(name) => Some(name),
            _ => None,
        }
    }
}

/// The mathematical form of a path that may be missing.
pub open spec fn opt_path(path: Option<ProjectPath>) -> Option<Seq<PartModel>> {
    match path {
        Some(p) => Some(p@),
        None => None,
    }
}

impl PathPart {
    /// A copy.
    pub fn copy(&self) -> (r: PathPart)
        ensures
            r@ == self@,
    {
        match self {
            PathPart::Root(s) => PathPart::Root(s.clone()),
            PathPart::Here => PathPart::Here,
            PathPart::Up => PathPart::Up,
            PathPart::Name(s) => PathPart::Name(s.clone()),
        }
    }
}

impl ProjectPath {
    /// The path of the first `n` parts.
    fn first_parts(&self, n: usize) -> (r: ProjectPath)
        requires
            n <= self@.len(),
        ensures
            r@ == self@.take(n as int),
    {
        let mut parts: Vec<PathPart> = Vec::new();
        let mut i: usize = 0;
        while i < n
            invariant
                i <= n <= self.parts@.len(),
                parts@.len() == i,
                forall|j: int| 0 <= j < i ==> (#[trigger] parts@[j])@ == self.parts@[j]@,
            decreases n - i,
        {
            parts.push(self.parts[i].copy());
            i += 1;
        }
        let r = ProjectPath { parts };
        assert(r@ =~= self@.take(n as int));
        r
    }

    /// A copy.
    pub fn copy(&self) -> (r: ProjectPath)
        ensures
            r@ == self@,
    {
        assert(self@.take(self@.len() as int) =~= self@);
        self.first_parts(self.parts.len())
    }

    /// Whether the path ends in a name.
    pub fn is_named(&self, name: &str) -> (r: bool)
        ensures
            r == (last_name(self@) == Some(name@)),
    {
        if self.parts.len() == 0 {
            return false;
        }
        assert(self@.last() == self.parts@[self.parts@.len() - 1]@);
        match &self.parts[self.parts.len() - 1] {
            PathPart::Name(s) => text::same(s.as_str(), name),
            _ => false,
        }
    }

    /// The name in which the path ends.
    pub fn file_name(&self) -> (r: Option<String>)
        ensures
            text::opt_text(r) == last_name(self@),
    {
        if self.parts.len() == 0 {
            return None;
        }
        assert(self@.last() == self.parts@[self.parts@.len() - 1]@);
        match &self.parts[self.parts.len() - 1] {
            PathPart::Name(s) => Some(s.clone()),
            _ => None,
        }
    }

    /// The folder of the path.
    pub fn parent(&self) -> (r: Option<ProjectPath>)
        ensures
            opt_path(r) == folder(self@),
    {
        if self.parts.len() == 0 {
            return None;
        }
        assert(self@.last() == self.parts@[self.parts@.len() - 1]@);
        match &self.parts[self.parts.len() - 1] {
            PathPart::Root(_) => None,
            _ => {
                assert(self@.take(self@.len() - 1) =~= self@.drop_last());
                Some(self.first_parts(self.parts.len() - 1))
            },
        }
    }

    /// The path of a name in this folder.
    pub fn join(&self, name: &str) -> (r: ProjectPath)
        ensures
            r@ == inside(self@, name@),
    {
        let mut r = self.copy();
        let ghost before = r.parts@;
        r.parts.push(PathPart::Name(name.to_owned()));
        assert(r@ =~= inside(self@, name@)) by {
            assert forall|i: int| 0 <= i < self@.len() implies r@[i] == self@[i] by {
                assert(order::views(before)[i] == self@[i]);
            }
        }
        r
    }

    /// A path in this folder.
    pub fn join_path(&self, relative: &ProjectPath) -> (r: ProjectPath)
        ensures
            r@ == path_inside(self@, relative@),
    {
        if relative.parts.len() > 0 {
            assert(relative@[0] == relative.parts@[0]@);
            match &relative.parts[0] {
                PathPart::Root(_) => {
                    return relative.copy();
                },
                _ => {},
            }
        }
        let mut r = self.copy();
        let ghost before = r@;
        let mut i: usize = 0;
        assert(relative@.take(0) =~= Seq::empty());
        assert(before + relative@.take(0) =~= before);
        while i < relative.parts.len()
            invariant
                i <= relative.parts@.len(),
                r@ == before + relative@.take(i as int),
            decreases relative.parts@.len() - i,
        {
            let part = relative.parts[i].copy();
            let ghost model = part@;
            let ghost earlier = r.parts@;
            r.parts.push(part);
            proof {
                assert(r@ =~= order::views(earlier).push(model));
                assert(model == relative@[i as int]);
                assert(relative@.take(i + 1) =~= relative@.take(i as int).push(model));
                assert((before + relative@.take(i as int)).push(model) =~= before + relative@.take(
                    i + 1,
                ));
            }
            i += 1;
        }
        assert(relative@.take(i as int) =~= relative@);
        r
    }
}

// ---------------------------------------------------------------------------
// The order of paths
// ---------------------------------------------------------------------------

/// The rank of a kind of part.
pub open spec fn part_rank(p: PartModel) -> int {
    match p {
        PartModel::Root(_) => 0,
        PartModel::Here => 1,
        PartModel::Up => 2,
        PartModel::Name(_) => 3,
    }
}

/// The text of a part.
pub open spec fn part_text(p: PartModel) -> Seq<char> {
    match p {
        PartModel::Root(s) => s,
        PartModel::Name(s) => s,
        _ => Seq::empty(),
    }
}

pub open spec fn part_precedes(a: PartModel, b: PartModel) -> bool {
    part_rank(a) < part_rank(b) || (part_rank(a) == part_rank(b) && text::precedes(
        part_text(a),
        part_text(b),
    ))
}

/// The order of paths, part by part.
pub open spec fn path_precedes(a: Seq<PartModel>, b: Seq<PartModel>) -> bool
    decreases a.len(),
{
    if b.len() == 0 {
        false
    } else if a.len() == 0 {
        true
    } else if a[0] == b[0] {
        path_precedes(a.skip(1), b.skip(1))
    } else {
        part_precedes(a[0], b[0])
    }
}

impl PathPart {
    fn rank(&self) -> (r: u8)
        ensures
            r == part_rank(self@),
    {
        match self {
            PathPart::Root(_) => 0,
            PathPart::Here => 1,
            PathPart::Up => 2,
            PathPart::Name(_) => 3,
        }
    }

    fn text(&self) -> (r: &str)
        ensures
            r@ == part_text(self@),
    {
        proof {
            reveal_strlit("");
            assert(""@ =~= Seq::empty());
        }
        match self {
            PathPart::Root(s) => s.as_str(),
            PathPart::Name(s) => s.as_str(),
            _ => "",
        }
    }

    fn is_same(&self, other: &PathPart) -> (r: bool)
        ensures
            r == (self@ == other@),
    {
        self.rank() == other.rank() && text::same(self.text(), other.text())
    }

    fn is_before(&self, other: &PathPart) -> (r: bool)
        ensures
            r == part_precedes(self@, other@),
    {
        self.rank() < other.rank() || (self.rank() == other.rank() && text::is_before(
            self.text(),
            other.text(),
        ))
    }
}

impl Ranked for ProjectPath {
    open spec fn goes_before(a: Seq<PartModel>, b: Seq<PartModel>) -> bool {
        path_precedes(a, b)
    }

    fn is_ranked_before(&self, other: &Self) -> (r: bool) {
        let ghost a = self@;
        let ghost b = other@;
        let mut i: usize = 0;
        assert(a.skip(0) =~= a && b.skip(0) =~= b);
        while i < self.parts.len() && i < other.parts.len()
            invariant
                a == self@,
                b == other@,
                i <= a.len(),
                i <= b.len(),
                path_precedes(a, b) == path_precedes(a.skip(i as int), b.skip(i as int)),
            decreases a.len() - i,
        {
            assert(a.skip(i as int)[0] == self.parts@[i as int]@);
            assert(b.skip(i as int)[0] == other.parts@[i as int]@);
            if !self.parts[i].is_same(&other.parts[i]) {
                return self.parts[i].is_before(&other.parts[i]);
            }
            assert(a.skip(i as int).skip(1) =~= a.skip(i + 1));
            assert(b.skip(i as int).skip(1) =~= b.skip(i + 1));
            i += 1;
        }
        i < other.parts.len()
    }
}

} // verus!
