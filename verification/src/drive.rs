//! The drive loop, one step at a time.
//!
//! Driving a query alternates two things: evaluating the query, and doing the
//! outside work that a pending evaluation asked for. The outside work (a
//! walk, a lookup, a run of a transform) is not done here. A round evaluates
//! the query and says what to do next; for each task the caller does the work
//! and hands back what came of it, which is written to the database. Then
//! the caller asks for the next round.

use vstd::prelude::*;
use crate::binary::{
    binary_outcome,
    binary_resolve,
    binary_resolve_outcome,
    binary_resolve_tasks,
    Binary,
    BinaryRuntimeResolved,
    NativeView,
};
use crate::bundle::{bundle_files, bundle_files_eval, Bundle};
use crate::collection::{
    collection_files,
    collection_files_eval,
    placed_view,
    Collection,
    Placed,
};
use crate::db::{Database, StoredView};
use crate::deps::extended;
use crate::error::{Cause, CauseView, ErrorKind, Outcome, ResolutionError};
use crate::fileset::{
    discovered,
    file_group_files,
    file_group_files_outcome,
    file_group_files_tasks,
    files_view,
    tasks_view,
    walk_view,
    DiscoveredFile,
    File,
    FileGroup,
    FileView,
    Job,
    RuntimeTask,
};
use crate::path::FsPath;
use crate::schema::Schema;
use crate::task::{TaskValueView, TaskView};
use crate::toolchain::{
    toolchain_resolve,
    toolchain_resolve_outcome,
    toolchain_resolve_tasks,
    Toolchain,
    ToolchainObject,
};
use crate::transform::{transform_files, transform_files_eval, Transform};

verus! {

/// What to do after an evaluation.
pub enum Step<T> {
    /// The query has its value: the loop ends.
    Done(T),
    /// The query failed: the request ends with this failure.
    Failed(ResolutionError),
    /// The query is pending: resolve these tasks, then evaluate again.
    Resolve(Vec<RuntimeTask>),
    /// The query is pending and asked for nothing. No round can make
    /// progress: the engine is at fault.
    Stalled,
}

/// What to do after an evaluation that came to `outcome` and recorded
/// `tasks`.
pub fn drive_step<T>(outcome: Outcome<T>, tasks: Vec<RuntimeTask>) -> (r: Step<T>)
    ensures
        match outcome {
            Ok(v) => r == Step::Done(v),
            Err(Cause::Error(e)) => r == Step::<T>::Failed(e),
            Err(Cause::Pending) => if tasks@.len() == 0 {
                r == Step::<T>::Stalled
            } else {
                r == Step::<T>::Resolve(tasks)
            },
        },
{
    match outcome {
        Ok(v) => Step::Done(v),
        Err(Cause::Error(e)) => Step::Failed(e),
        Err(Cause::Pending) => {
            if tasks.len() == 0 {
                Step::Stalled
            } else {
                Step::Resolve(tasks)
            }
        },
    }
}

/// A query that can be driven.
#[derive(Debug, Clone, Copy, PartialEq, Eq, Structural)]
pub enum Query {
    FileGroupFiles(Schema, FileGroup),
    TransformFiles(Schema, Transform),
    CollectionFiles(Schema, Collection),
    BundleFiles(Schema, Bundle),
    BinaryResolve(Schema, Binary),
    ToolchainResolve(Toolchain),
}

/// The value of a driven query.
pub enum Answer {
    Files(Vec<File>),
    Artifacts(Vec<(FsPath, File)>),
    Binary(BinaryRuntimeResolved),
    Toolchain(ToolchainObject),
}

/// The model of an [`Answer`].
pub enum AnswerView {
    Files(Seq<FileView>),
    Artifacts(Seq<Placed>),
    Binary(NativeView),
    Toolchain(Seq<char>),
}

impl View for Answer {
    type V = AnswerView;

    open spec fn view(&self) -> AnswerView {
        match self {
            Answer::Files(f) => AnswerView::Files(files_view(f@)),
            Answer::Artifacts(a) => AnswerView::Artifacts(placed_view(a@)),
            Answer::Binary(b) => AnswerView::Binary(b@),
            Answer::Toolchain(t) => AnswerView::Toolchain(t@),
        }
    }
}

/// What a query comes to on a database.
pub open spec fn query_outcome(db: Database, q: Query) -> Result<AnswerView, CauseView> {
    match q {
        Query::FileGroupFiles(s, g) => match file_group_files_outcome(db, s, g) {
            Ok(f) => Ok(AnswerView::Files(f)),
            Err(c) => Err(c),
        },
        Query::TransformFiles(s, t) => match transform_files_eval(db, s, t, db.transforms@.len()).0 {
            Ok(f) => Ok(AnswerView::Files(f)),
            Err(c) => Err(c),
        },
        Query::CollectionFiles(s, c) => match collection_files_eval(db, s, c).0 {
            Ok(a) => Ok(AnswerView::Artifacts(a)),
            Err(c) => Err(c),
        },
        Query::BundleFiles(s, b) => match bundle_files_eval(db, s, b).0 {
            Ok(a) => Ok(AnswerView::Artifacts(a)),
            Err(c) => Err(c),
        },
        Query::BinaryResolve(s, b) => match binary_resolve_outcome(db, s, b) {
            Ok(n) => Ok(AnswerView::Binary(n)),
            Err(c) => Err(c),
        },
        Query::ToolchainResolve(t) => match toolchain_resolve_outcome(db, t) {
            Ok(p) => Ok(AnswerView::Toolchain(p)),
            Err(c) => Err(c),
        },
    }
}

/// The tasks that a query asks for on a database, in the order in which its
/// evaluation meets them.
pub open spec fn query_tasks(db: Database, q: Query) -> Seq<TaskView> {
    match q {
        Query::FileGroupFiles(s, g) => file_group_files_tasks(db, s, g),
        Query::TransformFiles(s, t) => transform_files_eval(db, s, t, db.transforms@.len()).1,
        Query::CollectionFiles(s, c) => collection_files_eval(db, s, c).1,
        Query::BundleFiles(s, b) => bundle_files_eval(db, s, b).1,
        Query::BinaryResolve(s, b) => binary_resolve_tasks(db, s, b),
        Query::ToolchainResolve(t) => toolchain_resolve_tasks(db, t),
    }
}

/// Evaluates a query. The database is only read: its value, and the tasks
/// recorded, are those of the database as it is.
pub fn evaluate(db: &Database, q: Query, tasks: &mut Vec<RuntimeTask>) -> (r: Outcome<Answer>)
    ensures
        match r {
            Ok(a) => query_outcome(*db, q) == Ok::<AnswerView, CauseView>(a@),
            Err(c) => query_outcome(*db, q) == Err::<AnswerView, CauseView>(c@),
        },
        tasks_view(final(tasks)@) == extended(tasks_view(old(tasks)@), query_tasks(*db, q)),
{
    match q {
        Query::FileGroupFiles(s, g) => match file_group_files(db, s, g, tasks) {
            Ok(f) => Ok(Answer::Files(f)),
            Err(c) => Err(c),
        },
        Query::TransformFiles(s, t) => match transform_files(db, s, t, tasks) {
            Ok(f) => Ok(Answer::Files(f)),
            Err(c) => Err(c),
        },
        Query::CollectionFiles(s, c) => match collection_files(db, s, c, tasks) {
            Ok(a) => Ok(Answer::Artifacts(a)),
            Err(c) => Err(c),
        },
        Query::BundleFiles(s, b) => match bundle_files(db, s, b, tasks) {
            Ok(a) => Ok(Answer::Artifacts(a)),
            Err(c) => Err(c),
        },
        Query::BinaryResolve(s, b) => match binary_resolve(db, s, b, tasks) {
            Ok(n) => Ok(Answer::Binary(n)),
            Err(c) => Err(c),
        },
        Query::ToolchainResolve(t) => match toolchain_resolve(db, t, tasks) {
            Ok(p) => Ok(Answer::Toolchain(p)),
            Err(c) => Err(c),
        },
    }
}

/// The tasks of a round: those that the query asks for, each once, in the
/// order of their first occurrence.
pub open spec fn round_tasks(db: Database, q: Query) -> Seq<TaskView> {
    extended(Seq::<TaskView>::empty(), query_tasks(db, q))
}

/// One round of the drive loop: evaluates the query and says what to do
/// next. Done with the value where the query has one; failed with the
/// failure where it failed; else the tasks to resolve before the next
/// round, or stalled where the query is pending and asks for nothing.
pub fn drive_round(db: &Database, q: Query) -> (r: Step<Answer>)
    ensures
        match query_outcome(*db, q) {
            Ok(a) => r matches Step::Done(v) && v@ == a,
            Err(CauseView::Error { kind, detail }) => r matches Step::Failed(e) && e@ == (
                kind,
                detail,
            ),
            Err(CauseView::Pending) => if round_tasks(*db, q).len() == 0 {
                r is Stalled
            } else {
                r matches Step::Resolve(tasks) && tasks_view(tasks@) == round_tasks(*db, q)
            },
        },
{
    let mut tasks: Vec<RuntimeTask> = Vec::new();
    assert(tasks_view(tasks@) =~= Seq::<TaskView>::empty());
    let outcome = evaluate(db, q, &mut tasks);
    drive_step(outcome, tasks)
}

/// What came of the outside work for a task.
pub enum TaskEvent {
    /// A walk met these files.
    Walked(Vec<DiscoveredFile>),
    /// A lookup found an executable at this path, or failed with this
    /// message.
    Found(Result<String, String>),
    /// A transform produced this file, or failed.
    Transformed(Outcome<File>),
}

/// What is stored for a task once the outside work for it came to `event`:
/// nothing where the event is of another kind than the task.
pub open spec fn event_value(db: Database, task: TaskView, event: TaskEvent) -> Option<StoredView> {
    match (task, event) {
        (TaskView::Root(request), TaskEvent::Walked(met)) => Some(
            Ok(TaskValueView::RootFiles(discovered(request, walk_view(met@)))),
        ),
        (TaskView::Binary { schema, binary }, TaskEvent::Found(found)) => Some(
            match binary_outcome(db, binary, found) {
                Ok(n) => Ok(TaskValueView::Binary(n)),
                Err(c) => Err(c),
            },
        ),
        (TaskView::Toolchain { toolchain }, TaskEvent::Found(found)) => Some(
            match found {
                Ok(path) => Ok(TaskValueView::Toolchain(path@)),
                Err(message) => Err(
                    CauseView::Error { kind: ErrorKind::External, detail: message@ },
                ),
            },
        ),
        (TaskView::Apply { .. }, TaskEvent::Transformed(produced)) => Some(
            match produced {
                Ok(f) => Ok(TaskValueView::File(f@)),
                Err(c) => Err(c@),
            },
        ),
        _ => None,
    }
}

/// Writes what came of the outside work for a task to the database, under
/// the task's key. Says whether the event was of the task's kind; where it
/// was not, nothing changes. Nothing but what is stored under the task's key
/// changes in any case.
pub fn drive_task(task: &RuntimeTask, db: &mut Database, event: TaskEvent) -> (r: bool)
    ensures
        r == event_value(*old(db), task@, event) is Some,
        !r ==> *final(db) == *old(db),
        r ==> *final(db) == (Database { resolved: final(db).resolved, ..*old(db) }),
        r ==> forall|k: TaskView|
            #[trigger] final(db).stored(k) == if k == task@ {
                event_value(*old(db), task@, event)
            } else {
                old(db).stored(k)
            },
{
    match (&task.0, event) {
        (Job::ResolveRootFiles(t), TaskEvent::Walked(met)) => {
            t.resolve(db, &met);
            true
        },
        (Job::BinaryResolve(t), TaskEvent::Found(found)) => {
            let object = t.outcome(db, found);
            t.resolve(db, object);
            true
        },
        (Job::ToolchainResolve(t), TaskEvent::Found(found)) => {
            match found {
                Ok(path) => t.resolve(db, Ok(ToolchainObject { binary: path })),
                Err(message) => t.resolve(db, Err(Cause::from_err(message))),
            }
            true
        },
        (Job::TransformApply(t), TaskEvent::Transformed(produced)) => {
            t.resolve(db, produced);
            true
        },
        _ => false,
    }
}

} // verus!
