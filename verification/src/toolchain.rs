//! Toolchains: named executables looked up on this machine.

use vstd::prelude::*;
use crate::db::Database;
use crate::deps::extended;
use crate::error::{failure, Cause, CauseView, ErrorKind, Outcome};
use crate::fileset::{
    push_task,
    tasks_view,
    Job,
    RuntimeTask,
};
use crate::task::{TaskKey, TaskValue, TaskValueView, TaskView};

use crate::deps::{lemma_extended_none, lemma_extended_one};

verus! {

/// A handle to a toolchain of the database.
#[derive(Debug, Clone, Copy, PartialEq, Eq, Structural, PartialOrd, Ord, Hash)]
pub struct Toolchain {
    pub id: usize,
}

/// What the database holds of a toolchain.
#[derive(Debug)]
pub struct ToolchainData {
    pub name: String,
    pub binary: String,
    pub runner: String,
}

/// A toolchain resolved to an executable on this machine.
#[derive(Debug, PartialEq, Eq)]
pub struct ToolchainObject {
    pub binary: String,
}

impl View for ToolchainObject {
    type V = Seq<char>;

    open spec fn view(&self) -> Seq<char> {
        self.binary@
    }
}

impl Clone for ToolchainObject {
    fn clone(&self) -> (r: Self)
        ensures
            r@ == self@,
    {
        ToolchainObject { binary: self.binary.clone() }
    }
}

/// The task of finding the executable of a toolchain.
#[derive(Debug, Clone, Copy, PartialEq, Eq, Structural)]
pub struct ToolchainResolve {
    pub toolchain: Toolchain,
}

impl Database {
    /// Whether the database holds a toolchain.
    pub open spec fn has_toolchain(&self, t: Toolchain) -> bool {
        t.id < self.toolchains@.len()
    }

    /// What the database holds of a toolchain.
    pub fn toolchain(&self, t: Toolchain) -> (r: Option<&ToolchainData>)
        ensures
            r is Some <==> self.has_toolchain(t),
            r matches Some(data) ==> *data == self.toolchains@[t.id as int],
    {
        if t.id < self.toolchains.len() {
            Some(&self.toolchains[t.id])
        } else {
            None
        }
    }
}

impl Toolchain {
    /// Declares a toolchain.
    pub fn new(db: &mut Database, name: String, binary: String, runner: String) -> (r: Toolchain)
        ensures
            r.id == old(db).toolchains@.len(),
            final(db).toolchains@ == old(db).toolchains@.push(
                ToolchainData { name, binary, runner },
            ),
            *final(db) == (Database { toolchains: final(db).toolchains, ..*old(db) }),
    {
        let id = db.toolchains.len();
        db.toolchains.push(ToolchainData { name, binary, runner });
        Toolchain { id }
    }
}

/// The executable that a toolchain resolved to.
pub open spec fn toolchain_resolve_outcome(db: Database, toolchain: Toolchain) -> Result<
    Seq<char>,
    CauseView,
> {
    match db.stored(TaskView::Toolchain { toolchain }) {
        Some(Ok(TaskValueView::Toolchain(path))) => Ok(path),
        Some(Ok(_)) => Err(failure(ErrorKind::WrongKind)),
        Some(Err(c)) => Err(c),
        None => Err(CauseView::Pending),
    }
}

/// The tasks that resolving a toolchain asks for: the lookup, where nothing
/// is stored for it yet.
pub open spec fn toolchain_resolve_tasks(db: Database, toolchain: Toolchain) -> Seq<TaskView> {
    if db.stored(TaskView::Toolchain { toolchain }) is None {
        seq![TaskView::Toolchain { toolchain }]
    } else {
        Seq::empty()
    }
}

/// The executable that a toolchain resolved to. While nothing is stored for
/// the lookup, the lookup is recorded as a task and the answer is pending.
pub fn toolchain_resolve(db: &Database, toolchain: Toolchain, tasks: &mut Vec<RuntimeTask>) -> (r:
    Outcome<ToolchainObject>)
    ensures
        match r {
            Ok(v) => toolchain_resolve_outcome(*db, toolchain) == Ok::<Seq<char>, CauseView>(v@),
            Err(c) => toolchain_resolve_outcome(*db, toolchain) == Err::<Seq<char>, CauseView>(c@),
        },
        tasks_view(final(tasks)@) == extended(
            tasks_view(old(tasks)@),
            toolchain_resolve_tasks(*db, toolchain),
        ),
{
    proof {
        lemma_extended_none(tasks_view(tasks@));
        lemma_extended_one(tasks_view(tasks@), TaskView::Toolchain { toolchain });
    }
    let key = TaskKey::Toolchain { toolchain };
    match db.lookup(&key) {
        Some(Ok(TaskValue::Toolchain(t))) => Ok(t.clone()),
        Some(Ok(_)) => Err(Cause::error(ErrorKind::WrongKind)),
        Some(Err(c)) => Err(c.clone()),
        None => {
            push_task(tasks, RuntimeTask(Job::ToolchainResolve(ToolchainResolve { toolchain })));
            Err(Cause::Pending)
        },
    }
}

impl ToolchainResolve {
    /// Stores what the lookup came to under the task's key. Nothing else in
    /// the database changes.
    pub fn resolve(&self, db: &mut Database, object: Outcome<ToolchainObject>)
        ensures
            forall|k: TaskView|
                #[trigger] final(db).stored(k) == if k == (TaskView::Toolchain {
                    toolchain: self.toolchain,
                }) {
                    Some(
                        match object {
                            Ok(t) => Ok::<TaskValueView, CauseView>(TaskValueView::Toolchain(t@)),
                            Err(c) => Err::<TaskValueView, CauseView>(c@),
                        },
                    )
                } else {
                    old(db).stored(k)
                },
            *final(db) == (Database { resolved: final(db).resolved, ..*old(db) }),
    {
        let key = TaskKey::Toolchain { toolchain: self.toolchain };
        match object {
            Ok(t) => db.store(key, Ok(TaskValue::Toolchain(t))),
            Err(c) => db.store(key, Err(c)),
        }
    }
}

} // verus!
