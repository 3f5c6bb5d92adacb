//! What a pending query asks of the outside world, and what comes back.
//!
//! A task is known by its key: the plain description of the work. What a
//! resolver writes back is stored under the key, so a later evaluation that
//! asks for the same work finds the answer, and one that asks for other work
//! (another revision of a file, other patterns) does not.

use vstd::prelude::*;
use crate::binary::{Binary, BinaryRuntimeResolved, NativeView};
use crate::fileset::{
    clone_files,
    clone_items,
    files_view,
    patterns_view,
    same_items,
    File,
    FileGroup,
    FileGroupItem,
    FileGroupStategy,
    FileView,
};
use crate::path::FsPath;
use crate::schema::Schema;
use crate::toolchain::{Toolchain, ToolchainObject};
use crate::transform::Transform;
use crate::value::{Json, Value};

verus! {

/// The patterns of one group under a root: the group, its prefix below the
/// root, and its items.
#[derive(Debug, PartialEq, Eq)]
pub struct GroupPatterns {
    pub group: FileGroup,
    pub prefix: FsPath,
    pub items: Vec<FileGroupItem>,
}

/// The model of [`GroupPatterns`].
pub struct GroupPatternsView {
    pub group: FileGroup,
    pub prefix: Seq<Seq<char>>,
    pub items: Seq<(Seq<char>, FileGroupStategy)>,
}

impl View for GroupPatterns {
    type V = GroupPatternsView;

    open spec fn view(&self) -> GroupPatternsView {
        GroupPatternsView {
            group: self.group,
            prefix: self.prefix@,
            items: patterns_view(self.items@),
        }
    }
}

impl Clone for GroupPatterns {
    fn clone(&self) -> (r: Self)
        ensures
            r@ == self@,
    {
        GroupPatterns {
            group: self.group,
            prefix: self.prefix.clone(),
            items: clone_items(&self.items),
        }
    }
}

impl GroupPatterns {
    /// Whether two descriptions are the same.
    pub fn same(&self, other: &GroupPatterns) -> (r: bool)
        ensures
            r == (self@ == other@),
    {
        self.group == other.group && self.prefix.same(&other.prefix) && same_items(
            &self.items,
            &other.items,
        )
    }
}

/// The models of a sequence of group patterns.
pub open spec fn groups_view(v: Seq<GroupPatterns>) -> Seq<GroupPatternsView> {
    Seq::new(v.len(), |i: int| v[i]@)
}

/// The walk of one root: the schema, the root, and the patterns of the
/// groups attached to the root.
#[derive(Debug, PartialEq, Eq)]
pub struct RootRequest {
    pub schema: Schema,
    pub root: FsPath,
    pub groups: Vec<GroupPatterns>,
}

/// The model of a [`RootRequest`].
pub struct RootRequestView {
    pub schema: Schema,
    pub root: Seq<Seq<char>>,
    pub groups: Seq<GroupPatternsView>,
}

impl View for RootRequest {
    type V = RootRequestView;

    open spec fn view(&self) -> RootRequestView {
        RootRequestView { schema: self.schema, root: self.root@, groups: groups_view(self.groups@) }
    }
}

impl Clone for RootRequest {
    fn clone(&self) -> (r: Self)
        ensures
            r@ == self@,
    {
        let mut groups: Vec<GroupPatterns> = Vec::new();
        let mut i: usize = 0;
        while i < self.groups.len()
            invariant
                i <= self.groups.len(),
                groups.len() == i,
                forall|j: int| 0 <= j < i ==> groups[j]@ == self.groups[j]@,
            decreases self.groups.len() - i,
        {
            groups.push(self.groups[i].clone());
            i += 1;
        }
        assert(groups_view(groups@) =~= groups_view(self.groups@));
        RootRequest { schema: self.schema, root: self.root.clone(), groups }
    }
}

impl RootRequest {
    /// Whether two requests ask for the same walk.
    pub fn same(&self, other: &RootRequest) -> (r: bool)
        ensures
            r == (self@ == other@),
    {
        if self.schema != other.schema || !self.root.same(&other.root) {
            return false;
        }
        if self.groups.len() != other.groups.len() {
            assert(groups_view(self.groups@).len() != groups_view(other.groups@).len());
            return false;
        }
        let mut i: usize = 0;
        while i < self.groups.len()
            invariant
                self.groups.len() == other.groups.len(),
                i <= self.groups.len(),
                forall|j: int|
                    0 <= j < i ==> groups_view(self.groups@)[j] == groups_view(other.groups@)[j],
            decreases self.groups.len() - i,
        {
            if !self.groups[i].same(&other.groups[i]) {
                assert(groups_view(self.groups@)[i as int] != groups_view(other.groups@)[i as int]);
                return false;
            }
            i += 1;
        }
        assert(groups_view(self.groups@) =~= groups_view(other.groups@));
        true
    }
}

/// The key of a task: the work it stands for.
#[derive(Debug, PartialEq, Eq)]
pub enum TaskKey {
    /// Walk a root and match what is found against the groups' patterns.
    Root(RootRequest),
    /// Find the executable of a binary.
    Binary { schema: Schema, binary: Binary },
    /// Find the executable of a toolchain.
    Toolchain { toolchain: Toolchain },
    /// Run a transform on one file, with its dependencies resolved.
    Apply { schema: Schema, transform: Transform, file: File, dependencies: Value },
}

/// The model of a [`TaskKey`].
pub enum TaskView {
    Root(RootRequestView),
    Binary { schema: Schema, binary: Binary },
    Toolchain { toolchain: Toolchain },
    Apply { schema: Schema, transform: Transform, file: FileView, dependencies: Json },
}

impl View for TaskKey {
    type V = TaskView;

    open spec fn view(&self) -> TaskView {
        match self {
            TaskKey::Root(r) => TaskView::Root(r@),
            TaskKey::Binary { schema, binary } => TaskView::Binary {
                schema: *schema,
                binary: *binary,
            },
            TaskKey::Toolchain { toolchain } => TaskView::Toolchain { toolchain: *toolchain },
            TaskKey::Apply { schema, transform, file, dependencies } => TaskView::Apply {
                schema: *schema,
                transform: *transform,
                file: file@,
                dependencies: dependencies@,
            },
        }
    }
}

impl Clone for TaskKey {
    fn clone(&self) -> (r: Self)
        ensures
            r@ == self@,
    {
        match self {
            TaskKey::Root(r) => TaskKey::Root(r.clone()),
            TaskKey::Binary { schema, binary } => TaskKey::Binary {
                schema: *schema,
                binary: *binary,
            },
            TaskKey::Toolchain { toolchain } => TaskKey::Toolchain { toolchain: *toolchain },
            TaskKey::Apply { schema, transform, file, dependencies } => TaskKey::Apply {
                schema: *schema,
                transform: *transform,
                file: file.clone(),
                dependencies: dependencies.clone(),
            },
        }
    }
}

impl TaskKey {
    /// Whether two keys stand for the same work.
    pub fn same(&self, other: &TaskKey) -> (r: bool)
        ensures
            r == (self@ == other@),
    {
        match (self, other) {
            (TaskKey::Root(a), TaskKey::Root(b)) => a.same(b),
            (
                TaskKey::Binary { schema: s1, binary: b1 },
                TaskKey::Binary { schema: s2, binary: b2 },
            ) => *s1 == *s2 && *b1 == *b2,
            (TaskKey::Toolchain { toolchain: t1 }, TaskKey::Toolchain { toolchain: t2 }) => *t1
                == *t2,
            (
                TaskKey::Apply { schema: s1, transform: t1, file: f1, dependencies: d1 },
                TaskKey::Apply { schema: s2, transform: t2, file: f2, dependencies: d2 },
            ) => *s1 == *s2 && *t1 == *t2 && f1.same(f2) && d1.same(d2),
            _ => false,
        }
    }
}

/// The files found for each group of a root.
pub open spec fn found_view(v: Seq<(FileGroup, Vec<File>)>) -> Seq<(FileGroup, Seq<FileView>)> {
    Seq::new(v.len(), |i: int| (v[i].0, files_view(v[i].1@)))
}

/// A copy of the files found for each group of a root.
pub fn clone_found(v: &Vec<(FileGroup, Vec<File>)>) -> (r: Vec<(FileGroup, Vec<File>)>)
    ensures
        found_view(r@) == found_view(v@),
{
    let mut out: Vec<(FileGroup, Vec<File>)> = Vec::new();
    let mut i: usize = 0;
    while i < v.len()
        invariant
            i <= v.len(),
            out.len() == i,
            forall|j: int|
                0 <= j < i ==> out[j].0 == v[j].0 && files_view(out[j].1@) == files_view(v[j].1@),
        decreases v.len() - i,
    {
        out.push((v[i].0, clone_files(&v[i].1)));
        i += 1;
    }
    assert(found_view(out@) =~= found_view(v@));
    out
}

/// What a resolver produced for a task.
#[derive(Debug, PartialEq, Eq)]
pub enum TaskValue {
    /// For a walk: the files found, group by group.
    RootFiles(Vec<(FileGroup, Vec<File>)>),
    /// For a binary: the executable.
    Binary(BinaryRuntimeResolved),
    /// For a toolchain: the executable.
    Toolchain(ToolchainObject),
    /// For a transform applied to a file: the file that came out.
    File(File),
}

/// The model of a [`TaskValue`].
pub enum TaskValueView {
    RootFiles(Seq<(FileGroup, Seq<FileView>)>),
    Binary(NativeView),
    Toolchain(Seq<char>),
    File(FileView),
}

impl View for TaskValue {
    type V = TaskValueView;

    open spec fn view(&self) -> TaskValueView {
        match self {
            TaskValue::RootFiles(f) => TaskValueView::RootFiles(found_view(f@)),
            TaskValue::Binary(b) => TaskValueView::Binary(b@),
            TaskValue::Toolchain(t) => TaskValueView::Toolchain(t@),
            TaskValue::File(f) => TaskValueView::File(f@),
        }
    }
}

impl Clone for TaskValue {
    fn clone(&self) -> (r: Self)
        ensures
            r@ == self@,
    {
        match self {
            TaskValue::RootFiles(f) => TaskValue::RootFiles(clone_found(f)),
            TaskValue::Binary(b) => TaskValue::Binary(b.clone()),
            TaskValue::Toolchain(t) => TaskValue::Toolchain(t.clone()),
            TaskValue::File(f) => TaskValue::File(f.clone()),
        }
    }
}

} // verus!
