//! File groups, the roots that cover them, and the files found under them.

use vstd::prelude::*;
use crate::assoc::{first_where, lemma_first_where, lemma_first_where_is};
use crate::binary::BinaryResolve;
use crate::db::Database;
use crate::deps::{extended, lemma_extended_none, lemma_extended_one, push_new};
use crate::error::{failure, Cause, CauseView, ErrorKind, Outcome};
use crate::matcher::{compiles, strategy_for, GroupMatcher};
use crate::path::{path_text, FsPath};
use crate::roots::{attached_after, coalesced, roots_after, Attachment, SchemaRoots};
use crate::schema::Schema;
use crate::task::{
    clone_found,
    found_view,
    groups_view,
    GroupPatterns,
    GroupPatternsView,
    RootRequest,
    RootRequestView,
    TaskKey,
    TaskValue,
    TaskValueView,
    TaskView,
};
use crate::toolchain::ToolchainResolve;
use crate::transform::TransformApply;

verus! {

/// A handle to a file group of the database.
#[derive(Debug, Clone, Copy, PartialEq, Eq, Structural, PartialOrd, Ord, Hash)]
pub struct FileGroup {
    pub id: usize,
}

/// How the revision of a matched file is computed.
#[derive(Debug, Clone, Copy, PartialEq, Eq, Structural)]
pub enum FileGroupStategy {
    /// By a digest of the file's content.
    Hash,
    /// By the file's modification time, in whole seconds.
    Time,
}

/// One pattern of a file group and the strategy for the files it matches.
#[derive(Debug, PartialEq, Eq)]
pub struct FileGroupItem {
    pub strategy: FileGroupStategy,
    pub pattern: String,
}

/// What the database holds of a file group.
#[derive(Debug)]
pub struct FileGroupData {
    pub name: String,
    pub root: FsPath,
    pub items: Vec<FileGroupItem>,
}

/// A file: its path and the revision it was seen at. Two files with the same
/// path and revision stand for the same content.
#[derive(Debug, PartialEq, Eq)]
pub struct File {
    pub path: FsPath,
    pub revision: u64,
}

/// The model of a [`File`].
pub struct FileView {
    pub path: Seq<Seq<char>>,
    pub revision: u64,
}

impl View for File {
    type V = FileView;

    open spec fn view(&self) -> FileView {
        FileView { path: self.path@, revision: self.revision }
    }
}

impl Clone for File {
    fn clone(&self) -> (r: Self)
        ensures
            r@ == self@,
    {
        File { path: self.path.clone(), revision: self.revision }
    }
}

/// The models of a sequence of files.
pub open spec fn files_view(v: Seq<File>) -> Seq<FileView> {
    Seq::new(v.len(), |i: int| v[i]@)
}

/// Appending a file appends its model.
pub proof fn lemma_files_push(v: Seq<File>, f: File)
    ensures
        files_view(v.push(f)) == files_view(v).push(f@),
{
    assert(files_view(v.push(f)) =~= files_view(v).push(f@));
}

/// A copy of a vector of files.
pub fn clone_files(v: &Vec<File>) -> (r: Vec<File>)
    ensures
        files_view(r@) == files_view(v@),
{
    let mut out: Vec<File> = Vec::new();
    let mut i: usize = 0;
    while i < v.len()
        invariant
            i <= v.len(),
            files_view(out@) == files_view(v@).take(i as int),
        decreases v.len() - i,
    {
        let f = v[i].clone();
        proof {
            lemma_files_push(out@, f);
        }
        out.push(f);
        assert(files_view(out@) =~= files_view(v@).take(i + 1));
        i += 1;
    }
    assert(files_view(v@).take(v.len() as int) =~= files_view(v@));
    out
}

/// The model of a file group's items: each pattern with its strategy.
pub open spec fn patterns_view(v: Seq<FileGroupItem>) -> Seq<(Seq<char>, FileGroupStategy)> {
    Seq::new(v.len(), |i: int| (v[i].pattern@, v[i].strategy))
}

/// A copy of a file group's items.
pub fn clone_items(v: &Vec<FileGroupItem>) -> (r: Vec<FileGroupItem>)
    ensures
        patterns_view(r@) == patterns_view(v@),
{
    let mut out: Vec<FileGroupItem> = Vec::new();
    let mut i: usize = 0;
    while i < v.len()
        invariant
            i <= v.len(),
            out.len() == i,
            forall|j: int|
                0 <= j < i ==> out[j].pattern@ == v[j].pattern@ && out[j].strategy == v[j].strategy,
        decreases v.len() - i,
    {
        out.push(FileGroupItem { strategy: v[i].strategy, pattern: v[i].pattern.clone() });
        i += 1;
    }
    assert(patterns_view(out@) =~= patterns_view(v@));
    out
}

/// Whether two lists of items hold the same patterns with the same
/// strategies in the same order.
pub fn same_items(a: &Vec<FileGroupItem>, b: &Vec<FileGroupItem>) -> (r: bool)
    ensures
        r == (patterns_view(a@) == patterns_view(b@)),
{
    if a.len() != b.len() {
        assert(patterns_view(a@).len() != patterns_view(b@).len());
        return false;
    }
    let mut i: usize = 0;
    while i < a.len()
        invariant
            a.len() == b.len(),
            i <= a.len(),
            forall|j: int| 0 <= j < i ==> patterns_view(a@)[j] == patterns_view(b@)[j],
        decreases a.len() - i,
    {
        if a[i].pattern != b[i].pattern || a[i].strategy != b[i].strategy {
            assert(patterns_view(a@)[i as int] != patterns_view(b@)[i as int]);
            return false;
        }
        i += 1;
    }
    assert(patterns_view(a@) =~= patterns_view(b@));
    true
}

impl File {
    /// Whether two files have the same path and revision.
    pub fn same(&self, other: &File) -> (r: bool)
        ensures
            r == (self@ == other@),
    {
        self.revision == other.revision && self.path.same(&other.path)
    }
}

impl Database {
    /// Whether the database holds a file group.
    pub open spec fn has_group(&self, g: FileGroup) -> bool {
        g.id < self.file_groups@.len()
    }

    /// The root directory of a file group.
    pub open spec fn group_root(&self, g: FileGroup) -> Seq<Seq<char>> {
        self.file_groups@[g.id as int].root@
    }

    /// The items of a file group.
    pub open spec fn group_items(&self, g: FileGroup) -> Seq<(Seq<char>, FileGroupStategy)> {
        patterns_view(self.file_groups@[g.id as int].items@)
    }

    /// Whether the database holds a schema.
    pub open spec fn has_schema(&self, s: Schema) -> bool {
        s.id < self.schemas@.len()
    }

    /// The file groups of a schema, in the order of declaration.
    pub open spec fn schema_groups(&self, s: Schema) -> Seq<FileGroup> {
        self.schemas@[s.id as int].file_groups@
    }

    /// The roots of a schema and what is attached to them.
    pub open spec fn schema_roots(&self, s: Schema) -> (Set<Seq<Seq<char>>>, Set<Attachment>) {
        if self.has_schema(s) {
            roots_of(*self, self.schema_groups(s))
        } else {
            (Set::empty(), Set::empty())
        }
    }

    /// What the database holds of a file group.
    pub fn file_group(&self, g: FileGroup) -> (r: Option<&FileGroupData>)
        ensures
            r is Some <==> self.has_group(g),
            r matches Some(data) ==> *data == self.file_groups@[g.id as int],
    {
        if g.id < self.file_groups.len() {
            Some(&self.file_groups[g.id])
        } else {
            None
        }
    }
}

impl FileGroup {
    /// Declares a file group.
    pub fn new(db: &mut Database, name: String, root: FsPath, items: Vec<FileGroupItem>) -> (r:
        FileGroup)
        ensures
            r.id == old(db).file_groups@.len(),
            final(db).file_groups@ == old(db).file_groups@.push(FileGroupData { name, root, items }),
            *final(db) == (Database { file_groups: final(db).file_groups, ..*old(db) }),
    {
        let id = db.file_groups.len();
        db.file_groups.push(FileGroupData { name, root, items });
        FileGroup { id }
    }

    /// Moves a file group to another root directory. Says whether the
    /// database holds the group; where it does not, nothing changes.
    pub fn set_root(self, db: &mut Database, root: FsPath) -> (r: bool)
        ensures
            r == old(db).has_group(self),
            !r ==> *final(db) == *old(db),
            r ==> {
                &&& final(db).file_groups@.len() == old(db).file_groups@.len()
                &&& final(db).group_root(self) == root@
                &&& final(db).group_items(self) == old(db).group_items(self)
                &&& final(db).file_groups@[self.id as int].name@ == old(db).file_groups@[self.id as int].name@
                &&& forall|j: int|
                    0 <= j < old(db).file_groups@.len() && j != self.id
                        ==> final(db).file_groups@[j] == old(db).file_groups@[j]
                &&& *final(db) == (Database { file_groups: final(db).file_groups, ..*old(db) })
            },
    {
        if self.id >= db.file_groups.len() {
            return false;
        }
        let data = FileGroupData {
            name: db.file_groups[self.id].name.clone(),
            root,
            items: clone_items(&db.file_groups[self.id].items),
        };
        db.file_groups.set(self.id, data);
        true
    }
}

/// The roots and attachments that come of attaching the file groups of a
/// sequence one after the other. A group that the database does not hold is
/// passed over.
pub open spec fn roots_of(db: Database, groups: Seq<FileGroup>) -> (
    Set<Seq<Seq<char>>>,
    Set<Attachment>,
)
    decreases groups.len(),
{
    if groups.len() == 0 {
        (Set::empty(), Set::empty())
    } else {
        let (roots, attached) = roots_of(db, groups.drop_last());
        let g = groups.last();
        if db.has_group(g) {
            (
                roots_after(roots, db.group_root(g)),
                attached_after(roots, attached, g, db.group_root(g)),
            )
        } else {
            (roots, attached)
        }
    }
}

/// Only file groups that the database holds and that are among those attached
/// are attached; the roots are coalesced.
pub proof fn lemma_roots_of(db: Database, groups: Seq<FileGroup>)
    ensures
        coalesced(roots_of(db, groups).0, roots_of(db, groups).1),
        forall|t: Attachment|
            roots_of(db, groups).1.contains(t) ==> db.has_group(t.1) && groups.contains(t.1)
                && t.0 + t.2 == db.group_root(t.1),
        forall|i: int|
            0 <= i < groups.len() && db.has_group(groups[i]) ==> exists|t: Attachment|
                #[trigger] roots_of(db, groups).1.contains(t) && t.1 == groups[i],
    decreases groups.len(),
{
    if groups.len() > 0 {
        let before = groups.drop_last();
        let g = groups.last();
        lemma_roots_of(db, before);
        let (roots, attached) = roots_of(db, before);
        assert forall|x: FileGroup| before.contains(x) implies groups.contains(x) by {
            let i = choose|i: int| 0 <= i < before.len() && before[i] == x;
            assert(groups[i] == x);
        }
        assert(groups[groups.len() - 1] == g);
        if db.has_group(g) {
            let root = db.group_root(g);
            crate::roots::lemma_attach_coalesced(roots, attached, g, root);
            let after = attached_after(roots, attached, g, root);
            assert forall|t: Attachment| after.contains(t) implies db.has_group(t.1)
                && groups.contains(t.1) && t.0 + t.2 == db.group_root(t.1) by {
                if t.1 != g {
                    if attached.contains(t) {
                    } else {
                        let (r, p) = choose|r: Seq<Seq<char>>, p: Seq<Seq<char>>|
                            #[trigger] attached.contains((r, t.1, p)) && root.is_prefix_of(r) && t.2
                                == r.skip(root.len() as int) + p;
                        assert(r + p == db.group_root(t.1));
                        assert(root + (r.skip(root.len() as int) + p) =~= r + p);
                    }
                }
            }
            assert(roots_of(db, groups).1 == after);
            assert forall|i: int| 0 <= i < groups.len() && db.has_group(groups[i]) implies exists|
                t: Attachment,
            |
                #[trigger] roots_of(db, groups).1.contains(t) && t.1 == groups[i] by {
                if groups[i] != g {
                    assert(i < groups.len() - 1);
                    assert(before[i] == groups[i]);
                    let s = choose|s: Attachment| #[trigger]
                        attached.contains(s) && s.1 == groups[i];
                    assert(attached.contains(s) && s.1 != g);
                    let t = choose|t: Attachment|
                        #[trigger] after.contains(t) && t.1 == s.1 && t.0 + t.2 == s.0 + s.2;
                    assert(after.contains(t) && t.1 == groups[i]);
                } else {
                    let t = choose|t: Attachment| #[trigger] after.contains(t) && t.1 == g;
                    assert(after.contains(t) && t.1 == groups[i]);
                }
            }
        } else {
            assert(roots_of(db, groups).1 == attached);
            assert forall|i: int| 0 <= i < groups.len() && db.has_group(groups[i]) implies exists|
                t: Attachment,
            |
                #[trigger] roots_of(db, groups).1.contains(t) && t.1 == groups[i] by {
                assert(i < groups.len() - 1);
                assert(before[i] == groups[i]);
                let s = choose|s: Attachment| #[trigger]
                    attached.contains(s) && s.1 == groups[i];
                assert(attached.contains(s) && s.1 == groups[i]);
            }
        }
    }
}

impl SchemaRoots {
    /// Attaches a file group of the database, with the root directory it
    /// has there. A group that the database does not hold changes nothing.
    pub fn add(&mut self, db: &Database, file_group: FileGroup)
        ensures
            coalesced(final(self).root_set(), final(self).attachments()),
            db.has_group(file_group) ==> {
                &&& final(self).root_set() == roots_after(
                    old(self).root_set(),
                    db.group_root(file_group),
                )
                &&& final(self).attachments() == attached_after(
                    old(self).root_set(),
                    old(self).attachments(),
                    file_group,
                    db.group_root(file_group),
                )
            },
            !db.has_group(file_group) ==> {
                &&& final(self).root_set() == old(self).root_set()
                &&& final(self).attachments() == old(self).attachments()
            },
    {
        match db.file_group(file_group) {
            Some(data) => {
                self.attach(file_group, &data.root);
            },
            None => {
                proof {
                    use_type_invariant(&*self);
                    self.lemma_coalesced();
                }
            },
        }
    }
}

/// The roots to walk for a schema: its file groups attached one after the
/// other, in the order of declaration.
pub fn roots(db: &Database, schema: Schema) -> (r: SchemaRoots)
    ensures
        (r.root_set(), r.attachments()) == db.schema_roots(schema),
        coalesced(r.root_set(), r.attachments()),
{
    let mut out = SchemaRoots::new();
    proof {
        use_type_invariant(&out);
        out.lemma_coalesced();
    }
    if schema.id >= db.schemas.len() {
        return out;
    }
    let groups = &db.schemas[schema.id].file_groups;
    let mut i: usize = 0;
    assert(groups@.take(0) =~= Seq::<FileGroup>::empty());
    while i < groups.len()
        invariant
            i <= groups.len(),
            (out.root_set(), out.attachments()) == roots_of(*db, groups@.take(i as int)),
            coalesced(out.root_set(), out.attachments()),
        decreases groups.len() - i,
    {
        assert(groups@.take(i + 1).drop_last() =~= groups@.take(i as int));
        assert(groups@.take(i + 1).last() == groups@[i as int]);
        out.add(db, groups[i]);
        i += 1;
    }
    assert(groups@.take(groups.len() as int) =~= groups@);
    out
}

/// Where a group is attached: the root and the prefix.
pub open spec fn attached_at(a: Set<Attachment>, g: FileGroup) -> Option<
    (Seq<Seq<char>>, Seq<Seq<char>>),
> {
    if exists|t: Attachment| a.contains(t) && t.1 == g {
        let t = choose|t: Attachment| a.contains(t) && t.1 == g;
        Some((t.0, t.2))
    } else {
        None
    }
}

/// In a coalesced set, an attachment of a group is where the group is
/// attached.
pub proof fn lemma_attached_at(roots: Set<Seq<Seq<char>>>, a: Set<Attachment>, t: Attachment)
    requires
        coalesced(roots, a),
        a.contains(t),
    ensures
        attached_at(a, t.1) == Some((t.0, t.2)),
{
    let s = choose|s: Attachment| a.contains(s) && s.1 == t.1;
    assert(s == t);
}

/// The root that covers a file group in a schema.
pub open spec fn file_group_root_outcome(db: Database, schema: Schema, group: FileGroup) -> Result<
    Seq<Seq<char>>,
    CauseView,
> {
    if !db.has_schema(schema) {
        Err(failure(ErrorKind::UnknownSchema))
    } else {
        match attached_at(db.schema_roots(schema).1, group) {
            Some((root, prefix)) => Ok(root),
            None => Err(failure(ErrorKind::Uncovered)),
        }
    }
}

/// The root that covers a file group in a schema: the root that the group is
/// attached to. Fails where the database does not hold the schema, or the
/// schema does not hold the group.
pub fn file_group_root(db: &Database, schema: Schema, group: FileGroup) -> (r: Outcome<FsPath>)
    ensures
        match r {
            Ok(root) => file_group_root_outcome(*db, schema, group) == Ok::<
                Seq<Seq<char>>,
                CauseView,
            >(root@),
            Err(c) => file_group_root_outcome(*db, schema, group) == Err::<
                Seq<Seq<char>>,
                CauseView,
            >(c@),
        },
{
    if schema.id >= db.schemas.len() {
        return Err(Cause::error(ErrorKind::UnknownSchema));
    }
    let all = roots(db, schema);
    match all.root_of(group) {
        Some((root, prefix)) => {
            proof {
                lemma_attached_at(all.root_set(), all.attachments(), (root@, group, prefix@));
            }
            Ok(root.clone())
        },
        None => Err(Cause::error(ErrorKind::Uncovered)),
    }
}

/// The groups of a sequence that are attached to a root, each with its
/// prefix, in the order of the sequence.
pub open spec fn groups_at(a: Set<Attachment>, gs: Seq<FileGroup>, root: Seq<Seq<char>>) -> Seq<
    (FileGroup, Seq<Seq<char>>),
>
    decreases gs.len(),
{
    if gs.len() == 0 {
        Seq::empty()
    } else {
        let rest = groups_at(a, gs.drop_last(), root);
        match attached_at(a, gs.last()) {
            Some((r, p)) => if r == root {
                rest.push((gs.last(), p))
            } else {
                rest
            },
            None => rest,
        }
    }
}

/// The models of a list of groups with their prefixes.
pub open spec fn prefixes_view(v: Seq<(FileGroup, FsPath)>) -> Seq<(FileGroup, Seq<Seq<char>>)> {
    Seq::new(v.len(), |i: int| (v[i].0, v[i].1@))
}

/// The groups attached to a root of a schema, with their prefixes.
pub open spec fn root_file_groups_outcome(db: Database, schema: Schema, root: Seq<Seq<char>>)
    -> Result<Seq<(FileGroup, Seq<Seq<char>>)>, CauseView> {
    if !db.has_schema(schema) {
        Err(failure(ErrorKind::UnknownSchema))
    } else if !db.schema_roots(schema).0.contains(root) {
        Err(failure(ErrorKind::UnknownRoot))
    } else {
        Ok(groups_at(db.schema_roots(schema).1, db.schema_groups(schema), root))
    }
}

/// The groups attached to a root of a schema, with their prefixes, in the
/// order in which the schema declared them. Fails where the database does
/// not hold the schema, or the path is none of the schema's roots.
pub fn root_file_groups(db: &Database, schema: Schema, path: &FsPath) -> (r: Outcome<
    Vec<(FileGroup, FsPath)>,
>)
    ensures
        match r {
            Ok(v) => root_file_groups_outcome(*db, schema, path@) == Ok::<
                Seq<(FileGroup, Seq<Seq<char>>)>,
                CauseView,
            >(prefixes_view(v@)),
            Err(c) => root_file_groups_outcome(*db, schema, path@) == Err::<
                Seq<(FileGroup, Seq<Seq<char>>)>,
                CauseView,
            >(c@),
        },
{
    if schema.id >= db.schemas.len() {
        return Err(Cause::error(ErrorKind::UnknownSchema));
    }
    let all = roots(db, schema);
    if !all.has_root(path) {
        return Err(Cause::error(ErrorKind::UnknownRoot));
    }
    let groups = &db.schemas[schema.id].file_groups;
    let ghost attached = all.attachments();
    let mut out: Vec<(FileGroup, FsPath)> = Vec::new();
    let mut i: usize = 0;
    assert(groups@.take(0) =~= Seq::<FileGroup>::empty());
    assert(prefixes_view(out@) =~= groups_at(attached, groups@.take(0), path@));
    while i < groups.len()
        invariant
            i <= groups.len(),
            attached == all.attachments(),
            prefixes_view(out@) == groups_at(attached, groups@.take(i as int), path@),
        decreases groups.len() - i,
    {
        assert(groups@.take(i + 1).drop_last() =~= groups@.take(i as int));
        assert(groups@.take(i + 1).last() == groups@[i as int]);
        match all.root_of(groups[i]) {
            Some((root, prefix)) => {
                proof {
                    lemma_attached_at(all.root_set(), attached, (root@, groups@[i as int], prefix@));
                }
                if root.same(path) {
                    let ghost before = out@;
                    let pair = (groups[i], prefix.clone());
                    out.push(pair);
                    assert(prefixes_view(out@) =~= prefixes_view(before).push((pair.0, pair.1@)));
                }
            },
            None => {},
        }
        i += 1;
    }
    assert(groups@.take(groups.len() as int) =~= groups@);
    Ok(out)
}

/// The matcher of a file group under a prefix.
pub open spec fn file_group_matcher_outcome(db: Database, group: FileGroup, prefix: Seq<Seq<char>>)
    -> Result<GroupPatternsView, CauseView> {
    if !db.has_group(group) {
        Err(failure(ErrorKind::UnknownFileGroup))
    } else {
        let patterns = GroupPatternsView { group, prefix, items: db.group_items(group) };
        if compiles(patterns) {
            Ok(patterns)
        } else {
            Err(failure(ErrorKind::InvalidPattern))
        }
    }
}

/// The matcher of a file group under a prefix: one glob set of the group's
/// patterns, each under the prefix. Fails where the database does not hold
/// the group, or the patterns do not compile.
pub fn file_group_matcher(db: &Database, group: FileGroup, prefix: FsPath) -> (r: Outcome<
    GroupMatcher,
>)
    ensures
        match r {
            Ok(m) => file_group_matcher_outcome(*db, group, prefix@) == Ok::<
                GroupPatternsView,
                CauseView,
            >(m@),
            Err(c) => file_group_matcher_outcome(*db, group, prefix@) == Err::<
                GroupPatternsView,
                CauseView,
            >(c@),
        },
{
    match db.file_group(group) {
        None => Err(Cause::error(ErrorKind::UnknownFileGroup)),
        Some(data) => {
            let patterns = GroupPatterns { group, prefix, items: clone_items(&data.items) };
            match GroupMatcher::compile(patterns) {
                Some(m) => Ok(m),
                None => Err(Cause::error(ErrorKind::InvalidPattern)),
            }
        },
    }
}

/// The models of the matchers of a walk.
pub open spec fn matchers_view(v: Seq<GroupMatcher>) -> Seq<GroupPatternsView> {
    Seq::new(v.len(), |i: int| v[i]@)
}

/// The task of walking one root: the schema, the root, and the matcher of
/// each group attached to the root.
pub struct ResolveRootFiles {
    pub schema: Schema,
    pub root: FsPath,
    pub matchers: Vec<GroupMatcher>,
}

impl View for ResolveRootFiles {
    type V = RootRequestView;

    open spec fn view(&self) -> RootRequestView {
        RootRequestView {
            schema: self.schema,
            root: self.root@,
            groups: matchers_view(self.matchers@),
        }
    }
}

/// Work that only the outside world can do, by kind.
pub enum Job {
    ResolveRootFiles(ResolveRootFiles),
    BinaryResolve(BinaryResolve),
    ToolchainResolve(ToolchainResolve),
    TransformApply(TransformApply),
}

/// A task for the drive loop, as a query records it.
pub struct RuntimeTask(pub Job);

/// What every kind of task has: the key that its result is stored under.
pub trait Executable {
    /// The model of the task's key.
    spec fn task_view(&self) -> TaskView;

    /// The key of the task: the work it stands for.
    fn key(&self) -> (r: TaskKey)
        ensures
            r@ == self.task_view(),
    ;
}

impl View for RuntimeTask {
    type V = TaskView;

    open spec fn view(&self) -> TaskView {
        match self.0 {
            Job::ResolveRootFiles(t) => TaskView::Root(t@),
            Job::BinaryResolve(t) => TaskView::Binary { schema: t.schema, binary: t.binary },
            Job::ToolchainResolve(t) => TaskView::Toolchain { toolchain: t.toolchain },
            Job::TransformApply(t) => TaskView::Apply {
                schema: t.schema,
                transform: t.transform,
                file: t.file@,
                dependencies: t.dependencies@,
            },
        }
    }
}

impl Executable for ResolveRootFiles {
    open spec fn task_view(&self) -> TaskView {
        TaskView::Root(self@)
    }

    fn key(&self) -> (r: TaskKey) {
        TaskKey::Root(self.request())
    }
}

impl Executable for BinaryResolve {
    open spec fn task_view(&self) -> TaskView {
        TaskView::Binary { schema: self.schema, binary: self.binary }
    }

    fn key(&self) -> (r: TaskKey) {
        TaskKey::Binary { schema: self.schema, binary: self.binary }
    }
}

impl Executable for ToolchainResolve {
    open spec fn task_view(&self) -> TaskView {
        TaskView::Toolchain { toolchain: self.toolchain }
    }

    fn key(&self) -> (r: TaskKey) {
        TaskKey::Toolchain { toolchain: self.toolchain }
    }
}

impl Executable for TransformApply {
    open spec fn task_view(&self) -> TaskView {
        TaskView::Apply {
            schema: self.schema,
            transform: self.transform,
            file: self.file@,
            dependencies: self.dependencies@,
        }
    }

    fn key(&self) -> (r: TaskKey) {
        TaskKey::Apply {
            schema: self.schema,
            transform: self.transform,
            file: self.file.clone(),
            dependencies: self.dependencies.clone(),
        }
    }
}

impl Executable for RuntimeTask {
    open spec fn task_view(&self) -> TaskView {
        self@
    }

    fn key(&self) -> (r: TaskKey) {
        match &self.0 {
            Job::ResolveRootFiles(t) => t.key(),
            Job::BinaryResolve(t) => t.key(),
            Job::ToolchainResolve(t) => t.key(),
            Job::TransformApply(t) => t.key(),
        }
    }
}

/// The models of a list of tasks.
pub open spec fn tasks_view(v: Seq<RuntimeTask>) -> Seq<TaskView> {
    Seq::new(v.len(), |i: int| v[i]@)
}

impl ResolveRootFiles {
    /// The key of the walk.
    pub fn request(&self) -> (r: RootRequest)
        ensures
            r@ == self@,
    {
        let mut groups: Vec<GroupPatterns> = Vec::new();
        let mut i: usize = 0;
        while i < self.matchers.len()
            invariant
                i <= self.matchers.len(),
                groups.len() == i,
                forall|j: int| 0 <= j < i ==> groups[j]@ == self.matchers[j]@,
            decreases self.matchers.len() - i,
        {
            groups.push(self.matchers[i].patterns().clone());
            i += 1;
        }
        assert(groups_view(groups@) =~= matchers_view(self.matchers@));
        RootRequest { schema: self.schema, root: self.root.clone(), groups }
    }
}

/// Records a task, unless a task for the same work is recorded already.
pub fn push_task(tasks: &mut Vec<RuntimeTask>, task: RuntimeTask)
    ensures
        tasks_view(final(tasks)@) == push_new(tasks_view(old(tasks)@), task@),
{
    let key = task.key();
    let mut i: usize = 0;
    while i < tasks.len()
        invariant
            i <= tasks.len(),
            *tasks == *old(tasks),
            key@ == task@,
            forall|j: int| 0 <= j < i ==> tasks_view(tasks@)[j] != task@,
        decreases tasks.len() - i,
    {
        let other = tasks[i].key();
        if other.same(&key) {
            assert(tasks_view(tasks@)[i as int] == task@);
            return ;
        }
        i += 1;
    }
    tasks.push(task);
    assert(tasks_view(tasks@) =~= tasks_view(old(tasks)@).push(task@));
}

/// The walk that finds the files of a root of a schema.
pub open spec fn root_request(db: Database, schema: Schema, root: Seq<Seq<char>>)
    -> RootRequestView {
    let groups = groups_at(db.schema_roots(schema).1, db.schema_groups(schema), root);
    RootRequestView {
        schema,
        root,
        groups: Seq::new(
            groups.len(),
            |i: int|
                GroupPatternsView {
                    group: groups[i].0,
                    prefix: groups[i].1,
                    items: db.group_items(groups[i].0),
                },
        ),
    }
}

/// Whether the patterns of every group of a walk compile.
pub open spec fn request_compiles(r: RootRequestView) -> bool {
    forall|i: int| 0 <= i < r.groups.len() ==> compiles(#[trigger] r.groups[i])
}

/// What the walk of a root found, once it was resolved.
pub open spec fn root_files_outcome(db: Database, schema: Schema, root: Seq<Seq<char>>) -> Result<
    Seq<(FileGroup, Seq<FileView>)>,
    CauseView,
> {
    if !db.has_schema(schema) {
        Err(failure(ErrorKind::UnknownSchema))
    } else if !db.schema_roots(schema).0.contains(root) {
        Err(failure(ErrorKind::UnknownRoot))
    } else if !request_compiles(root_request(db, schema, root)) {
        Err(failure(ErrorKind::InvalidPattern))
    } else {
        match db.stored(TaskView::Root(root_request(db, schema, root))) {
            Some(Ok(TaskValueView::RootFiles(found))) => Ok(found),
            Some(Ok(_)) => Err(failure(ErrorKind::WrongKind)),
            Some(Err(c)) => Err(c),
            None => Err(CauseView::Pending),
        }
    }
}

/// The tasks that the walk of a root asks for: the walk itself, where
/// nothing is stored for it yet.
pub open spec fn root_files_tasks(db: Database, schema: Schema, root: Seq<Seq<char>>) -> Seq<
    TaskView,
> {
    if db.has_schema(schema) && db.schema_roots(schema).0.contains(root) && request_compiles(
        root_request(db, schema, root),
    ) && db.stored(TaskView::Root(root_request(db, schema, root))) is None {
        seq![TaskView::Root(root_request(db, schema, root))]
    } else {
        Seq::empty()
    }
}

/// What the walk of a root found: for each group attached to the root, the
/// files that match the group's patterns.
///
/// While nothing is stored for the walk, the walk is recorded as a task and
/// the answer is pending. Fails where the database does not hold the
/// schema, the path is none of the schema's roots, a group's patterns do not
/// compile, or what is stored for the walk is no walk's result.
pub fn root_files(db: &Database, schema: Schema, root: FsPath, tasks: &mut Vec<RuntimeTask>) -> (r:
    Outcome<Vec<(FileGroup, Vec<File>)>>)
    ensures
        match r {
            Ok(v) => root_files_outcome(*db, schema, root@) == Ok::<
                Seq<(FileGroup, Seq<FileView>)>,
                CauseView,
            >(found_view(v@)),
            Err(c) => root_files_outcome(*db, schema, root@) == Err::<
                Seq<(FileGroup, Seq<FileView>)>,
                CauseView,
            >(c@),
        },
        tasks_view(final(tasks)@) == extended(
            tasks_view(old(tasks)@),
            root_files_tasks(*db, schema, root@),
        ),
{
    proof {
        lemma_extended_none(tasks_view(tasks@));
        lemma_extended_one(tasks_view(tasks@), TaskView::Root(root_request(*db, schema, root@)));
    }
    let groups = match root_file_groups(db, schema, &root) {
        Ok(groups) => groups,
        Err(c) => {
            return Err(c);
        },
    };
    let ghost request = root_request(*db, schema, root@);
    proof {
        lemma_roots_of(*db, db.schema_groups(schema));
    }
    let mut matchers: Vec<GroupMatcher> = Vec::new();
    let mut i: usize = 0;
    while i < groups.len()
        invariant
            i <= groups.len(),
            *tasks == *old(tasks),
            request == root_request(*db, schema, root@),
            request.groups.len() == groups.len(),
            forall|j: int|
                0 <= j < groups.len() ==> (#[trigger] request.groups[j]) == (GroupPatternsView {
                    group: groups[j].0,
                    prefix: groups[j].1@,
                    items: db.group_items(groups[j].0),
                }),
            matchers.len() == i,
            forall|j: int| 0 <= j < i ==> (#[trigger] matchers[j])@ == request.groups[j],
            forall|j: int| 0 <= j < i ==> compiles(#[trigger] request.groups[j]),
            db.has_schema(schema),
            db.schema_roots(schema).0.contains(root@),
            forall|t: Attachment| db.schema_roots(schema).1.contains(t) ==> db.has_group(t.1),
            extended(tasks_view(old(tasks)@), Seq::<TaskView>::empty()) == tasks_view(old(tasks)@),
        decreases groups.len() - i,
    {
        match file_group_matcher(db, groups[i].0, groups[i].1.clone()) {
            Ok(m) => {
                matchers.push(m);
            },
            Err(c) => {
                proof {
                    assert(!compiles(request.groups[i as int])) by {
                        lemma_groups_at_valid(
                            *db,
                            db.schema_roots(schema).1,
                            db.schema_groups(schema),
                            root@,
                            i as int,
                        );
                    }
                }
                return Err(Cause::error(ErrorKind::InvalidPattern));
            },
        }
        i += 1;
    }
    let task = ResolveRootFiles { schema, root, matchers };
    assert(task@.groups =~= request.groups);
    let key = TaskKey::Root(task.request());
    match db.lookup(&key) {
        Some(Ok(TaskValue::RootFiles(found))) => Ok(clone_found(found)),
        Some(Ok(_)) => Err(Cause::error(ErrorKind::WrongKind)),
        Some(Err(c)) => Err(c.clone()),
        None => {
            push_task(tasks, RuntimeTask(Job::ResolveRootFiles(task)));
            Err(Cause::Pending)
        },
    }
}

/// The groups attached to a root are groups that the database holds.
pub proof fn lemma_groups_at_valid(
    db: Database,
    a: Set<Attachment>,
    gs: Seq<FileGroup>,
    root: Seq<Seq<char>>,
    i: int,
)
    requires
        forall|t: Attachment| a.contains(t) ==> db.has_group(t.1),
        0 <= i < groups_at(a, gs, root).len(),
    ensures
        db.has_group(groups_at(a, gs, root)[i].0),
    decreases gs.len(),
{
    if gs.len() > 0 {
        let rest = groups_at(a, gs.drop_last(), root);
        if i < rest.len() {
            lemma_groups_at_valid(db, a, gs.drop_last(), root, i);
        } else {
            let t = choose|t: Attachment| a.contains(t) && t.1 == gs.last();
        }
    }
}

/// The condition that an entry of a walk's result is that of a group.
pub open spec fn is_group(g: FileGroup) -> spec_fn((FileGroup, Seq<FileView>)) -> bool {
    |e: (FileGroup, Seq<FileView>)| e.0 == g
}

/// The files of a group in what a walk found: those of the first entry for
/// the group.
pub open spec fn found_files(found: Seq<(FileGroup, Seq<FileView>)>, g: FileGroup) -> Option<
    Seq<FileView>,
> {
    match first_where(found, is_group(g)) {
        Some(i) => Some(found[i].1),
        None => None,
    }
}

/// The files of a group in what a walk found.
pub fn files_of<'a>(found: &'a Vec<(FileGroup, Vec<File>)>, group: FileGroup) -> (r: Option<
    &'a Vec<File>,
>)
    ensures
        match r {
            Some(files) => found_files(found_view(found@), group) == Some(files_view(files@)),
            None => found_files(found_view(found@), group) is None,
        },
{
    let mut i: usize = 0;
    while i < found.len()
        invariant
            i <= found.len(),
            forall|j: int| 0 <= j < i ==> !is_group(group)(found_view(found@)[j]),
        decreases found.len() - i,
    {
        if found[i].0 == group {
            proof {
                lemma_first_where_is(found_view(found@), is_group(group), i as int);
            }
            return Some(&found[i].1);
        }
        i += 1;
    }
    proof {
        lemma_first_where(found_view(found@), is_group(group));
    }
    None
}

/// The files of a file group of a schema.
pub open spec fn file_group_files_outcome(db: Database, schema: Schema, group: FileGroup) -> Result<
    Seq<FileView>,
    CauseView,
> {
    match file_group_root_outcome(db, schema, group) {
        Err(c) => Err(c),
        Ok(root) => match root_files_outcome(db, schema, root) {
            Err(c) => Err(c),
            Ok(found) => match found_files(found, group) {
                Some(files) => Ok(files),
                None => Err(failure(ErrorKind::MissingGroup)),
            },
        },
    }
}

/// The tasks that the files of a file group ask for: the walk of the root
/// that covers the group.
pub open spec fn file_group_files_tasks(db: Database, schema: Schema, group: FileGroup) -> Seq<
    TaskView,
> {
    match file_group_root_outcome(db, schema, group) {
        Err(c) => Seq::empty(),
        Ok(root) => root_files_tasks(db, schema, root),
    }
}

/// The paths of a sequence of files.
pub open spec fn paths_of(files: Seq<FileView>) -> Seq<Seq<Seq<char>>> {
    Seq::new(files.len(), |i: int| files[i].path)
}

/// The models of a list of paths.
pub open spec fn paths_view(v: Seq<FsPath>) -> Seq<Seq<Seq<char>>> {
    Seq::new(v.len(), |i: int| v[i]@)
}

/// The files of a file group, as the walk of its root found them.
///
/// Pending, with the walk recorded as a task, while the walk is not
/// resolved. Fails where the database does not hold the schema, the schema
/// does not hold the group, a pattern under the root does not compile, or
/// what is stored for the walk lacks the group.
pub fn file_group_files(
    db: &Database,
    schema: Schema,
    group: FileGroup,
    tasks: &mut Vec<RuntimeTask>,
) -> (r: Outcome<Vec<File>>)
    ensures
        match r {
            Ok(v) => file_group_files_outcome(*db, schema, group) == Ok::<Seq<FileView>, CauseView>(
                files_view(v@),
            ),
            Err(c) => file_group_files_outcome(*db, schema, group) == Err::<
                Seq<FileView>,
                CauseView,
            >(c@),
        },
        tasks_view(final(tasks)@) == extended(
            tasks_view(old(tasks)@),
            file_group_files_tasks(*db, schema, group),
        ),
{
    let root = match file_group_root(db, schema, group) {
        Ok(root) => root,
        Err(c) => {
            proof {
                lemma_extended_none(tasks_view(tasks@));
            }
            return Err(c);
        },
    };
    let found = match root_files(db, schema, root, tasks) {
        Ok(found) => found,
        Err(c) => {
            return Err(c);
        },
    };
    match files_of(&found, group) {
        Some(files) => Ok(clone_files(files)),
        None => Err(Cause::error(ErrorKind::MissingGroup)),
    }
}

/// The paths of the files of a file group, as the walk of its root found
/// them. Pending and failing as [`file_group_files`].
pub fn file_group_resolved_paths(
    db: &Database,
    schema: Schema,
    group: FileGroup,
    tasks: &mut Vec<RuntimeTask>,
) -> (r: Outcome<Vec<FsPath>>)
    ensures
        match r {
            Ok(v) => file_group_files_outcome(*db, schema, group) matches Ok(files)
                && paths_view(v@) == paths_of(files),
            Err(c) => file_group_files_outcome(*db, schema, group) == Err::<
                Seq<FileView>,
                CauseView,
            >(c@),
        },
        tasks_view(final(tasks)@) == extended(
            tasks_view(old(tasks)@),
            file_group_files_tasks(*db, schema, group),
        ),
{
    let files = match file_group_files(db, schema, group, tasks) {
        Ok(files) => files,
        Err(c) => {
            return Err(c);
        },
    };
    let mut out: Vec<FsPath> = Vec::new();
    let mut i: usize = 0;
    while i < files.len()
        invariant
            i <= files.len(),
            out.len() == i,
            forall|j: int| 0 <= j < i ==> out[j]@ == files[j].path@,
        decreases files.len() - i,
    {
        out.push(files[i].path.clone());
        i += 1;
    }
    assert(paths_view(out@) =~= paths_of(files_view(files@)));
    Ok(out)
}

/// A file that a walk met: its path, its modification time in whole seconds
/// since the epoch, and a digest of its content.
#[derive(Debug)]
pub struct DiscoveredFile {
    pub path: FsPath,
    pub modified: u64,
    pub digest: u64,
}

/// The model of a [`DiscoveredFile`].
pub struct DiscoveredView {
    pub path: Seq<Seq<char>>,
    pub modified: u64,
    pub digest: u64,
}

impl View for DiscoveredFile {
    type V = DiscoveredView;

    open spec fn view(&self) -> DiscoveredView {
        DiscoveredView { path: self.path@, modified: self.modified, digest: self.digest }
    }
}

/// The models of what a walk met.
pub open spec fn walk_view(v: Seq<DiscoveredFile>) -> Seq<DiscoveredView> {
    Seq::new(v.len(), |i: int| v[i]@)
}

/// The revision of a file under a strategy.
pub open spec fn revision_by(s: FileGroupStategy, d: DiscoveredView) -> u64 {
    match s {
        FileGroupStategy::Time => d.modified,
        FileGroupStategy::Hash => d.digest,
    }
}

/// The file that a group makes of what a walk met: none where the path does
/// not lie under the root or no pattern of the group matches what is left of
/// the path below the root; else the path, at the revision that the strategy
/// of the first matching item gives.
pub open spec fn file_for(m: GroupPatternsView, root: Seq<Seq<char>>, d: DiscoveredView) -> Option<
    FileView,
> {
    if root.is_prefix_of(d.path) {
        match strategy_for(m, path_text(d.path.skip(root.len() as int))) {
            Some(s) => Some(FileView { path: d.path, revision: revision_by(s, d) }),
            None => None,
        }
    } else {
        None
    }
}

/// The files of a group among what a walk met, in the order of the walk.
pub open spec fn matched(m: GroupPatternsView, root: Seq<Seq<char>>, met: Seq<DiscoveredView>)
    -> Seq<FileView>
    decreases met.len(),
{
    if met.len() == 0 {
        Seq::empty()
    } else {
        let rest = matched(m, root, met.drop_last());
        match file_for(m, root, met.last()) {
            Some(f) => rest.push(f),
            None => rest,
        }
    }
}

/// What a walk found: for each group of the walk, in order, its files among
/// what the walk met.
pub open spec fn discovered(r: RootRequestView, met: Seq<DiscoveredView>) -> Seq<
    (FileGroup, Seq<FileView>),
> {
    Seq::new(r.groups.len(), |i: int| (r.groups[i].group, matched(r.groups[i], r.root, met)))
}

/// Whether an item of a group of a walk goes by content.
pub open spec fn goes_by_content(r: RootRequestView) -> bool {
    exists|i: int, k: int|
        0 <= i < r.groups.len() && 0 <= k < r.groups[i].items.len() && (
        #[trigger] r.groups[i].items[k]).1 == FileGroupStategy::Hash
}

impl ResolveRootFiles {
    /// Whether the walk has to digest the content of the files it meets:
    /// whether an item of one of its groups goes by content.
    pub fn needs_digest(&self) -> (r: bool)
        ensures
            r == goes_by_content(self@),
    {
        let mut i: usize = 0;
        while i < self.matchers.len()
            invariant
                i <= self.matchers.len(),
                forall|a: int, k: int|
                    0 <= a < i && 0 <= k < self@.groups[a].items.len() ==> (
                    #[trigger] self@.groups[a].items[k]).1 != FileGroupStategy::Hash,
            decreases self.matchers.len() - i,
        {
            let items = &self.matchers[i].patterns().items;
            assert(patterns_view(items@) == self@.groups[i as int].items);
            let mut k: usize = 0;
            while k < items.len()
                invariant
                    i < self.matchers.len(),
                    k <= items.len(),
                    patterns_view(items@) == self@.groups[i as int].items,
                    forall|j: int|
                        0 <= j < k ==> (#[trigger] self@.groups[i as int].items[j]).1
                            != FileGroupStategy::Hash,
                decreases items.len() - k,
            {
                if items[k].strategy == FileGroupStategy::Hash {
                    assert(self@.groups[i as int].items[k as int].1 == FileGroupStategy::Hash);
                    return true;
                }
                k += 1;
            }
            i += 1;
        }
        false
    }

    /// The files of one group among what the walk met.
    fn matched_files(&self, m: &GroupMatcher, met: &Vec<DiscoveredFile>) -> (r: Vec<File>)
        ensures
            files_view(r@) == matched(m@, self.root@, walk_view(met@)),
    {
        let ghost all = walk_view(met@);
        let mut out: Vec<File> = Vec::new();
        let mut i: usize = 0;
        assert(all.take(0) =~= Seq::<DiscoveredView>::empty());
        assert(files_view(out@) =~= matched(m@, self.root@, all.take(0)));
        while i < met.len()
            invariant
                i <= met.len(),
                all == walk_view(met@),
                files_view(out@) == matched(m@, self.root@, all.take(i as int)),
            decreases met.len() - i,
        {
            assert(all.take(i + 1).drop_last() =~= all.take(i as int));
            assert(all.take(i + 1).last() == met[i as int]@);
            match met[i].path.strip_prefix(&self.root) {
                Some(below) => {
                    let text = below.to_text();
                    match m.strategy(text.as_str()) {
                        Some(strategy) => {
                            let revision = match strategy {
                                FileGroupStategy::Time => met[i].modified,
                                FileGroupStategy::Hash => met[i].digest,
                            };
                            let file = File { path: met[i].path.clone(), revision };
                            proof {
                                lemma_files_push(out@, file);
                            }
                            out.push(file);
                        },
                        None => {},
                    }
                },
                None => {},
            }
            i += 1;
        }
        assert(all.take(met.len() as int) =~= all);
        out
    }

    /// Resolves the walk: matches what the walk met against the patterns
    /// of each group, and stores what was found under the walk's key.
    /// Nothing else in the database changes.
    pub fn resolve(&self, db: &mut Database, met: &Vec<DiscoveredFile>)
        ensures
            forall|k: TaskView|
                #[trigger] final(db).stored(k) == if k == TaskView::Root(self@) {
                    Some(
                        Ok::<TaskValueView, CauseView>(
                            TaskValueView::RootFiles(discovered(self@, walk_view(met@))),
                        ),
                    )
                } else {
                    old(db).stored(k)
                },
            *final(db) == (Database { resolved: final(db).resolved, ..*old(db) }),
    {
        let mut found: Vec<(FileGroup, Vec<File>)> = Vec::new();
        let mut i: usize = 0;
        while i < self.matchers.len()
            invariant
                i <= self.matchers.len(),
                found.len() == i,
                forall|j: int|
                    0 <= j < i ==> found[j].0 == self.matchers[j]@.group && files_view(found[j].1@)
                        == matched(self.matchers[j]@, self.root@, walk_view(met@)),
            decreases self.matchers.len() - i,
        {
            let files = self.matched_files(&self.matchers[i], met);
            found.push((self.matchers[i].group(), files));
            i += 1;
        }
        assert(found_view(found@) =~= discovered(self@, walk_view(met@)));
        db.store(TaskKey::Root(self.request()), Ok(TaskValue::RootFiles(found)));
    }
}

/// Where the digest of a content starts.
pub const DIGEST_OFFSET: u64 = 0xcbf29ce484222325;

/// What the digest of a content is multiplied by for every byte.
pub const DIGEST_PRIME: u64 = 0x100000001b3;

/// The digest of a content, the revision of a file under the `Hash`
/// strategy: the 64-bit FNV-1a hash of its bytes. Each byte in turn is
/// xored into the digest, which is then multiplied by the prime, modulo
/// 2^64.
pub open spec fn digest_of(bytes: Seq<u8>) -> u64
    decreases bytes.len(),
{
    if bytes.len() == 0 {
        DIGEST_OFFSET
    } else {
        (digest_of(bytes.drop_last()) ^ (bytes.last() as u64)).wrapping_mul(DIGEST_PRIME)
    }
}

/// The digest of a content.
pub fn content_digest(bytes: &[u8]) -> (r: u64)
    ensures
        r == digest_of(bytes@),
{
    let mut digest: u64 = DIGEST_OFFSET;
    let mut i: usize = 0;
    assert(bytes@.take(0) =~= Seq::<u8>::empty());
    while i < bytes.len()
        invariant
            i <= bytes.len(),
            digest == digest_of(bytes@.take(i as int)),
        decreases bytes.len() - i,
    {
        assert(bytes@.take(i + 1).drop_last() =~= bytes@.take(i as int));
        assert(bytes@.take(i + 1).last() == bytes@[i as int]);
        digest = (digest ^ (bytes[i] as u64)).wrapping_mul(DIGEST_PRIME);
        i += 1;
    }
    assert(bytes@.take(bytes.len() as int) =~= bytes@);
    digest
}

} // verus!
