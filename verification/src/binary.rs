//! Binaries: logical executables that a schema names, and what they resolve
//! to.

use vstd::prelude::*;
use crate::db::Database;
use crate::deps::extended;
use crate::error::{failure, Cause, CauseView, ErrorKind, Outcome};
use crate::fileset::{
    push_task,
    tasks_view,
    Job,
    RuntimeTask,
};
use crate::schema::Schema;
use crate::task::{TaskKey, TaskValue, TaskValueView, TaskView};
use crate::text::{clone_pairs, clone_strings, pair_texts, texts};

use crate::deps::{lemma_extended_none, lemma_extended_one};

verus! {

/// A handle to a binary of the database.
#[derive(Debug, Clone, Copy, PartialEq, Eq, Structural, PartialOrd, Ord, Hash)]
pub struct Binary {
    pub id: usize,
}

/// What the database holds of a binary.
#[derive(Debug)]
pub struct BinaryData {
    pub name: String,
    pub runtime: BinaryRuntime,
}

/// A native executable: its name, the environment it runs in and its
/// arguments.
#[derive(Debug)]
pub struct BinaryNative {
    pub executable: String,
    pub env: Vec<(String, String)>,
    pub args: Vec<String>,
}

/// How a binary runs.
#[derive(Debug)]
pub enum BinaryRuntime {
    Native(BinaryNative),
}

/// A binary resolved to an executable on this machine.
#[derive(Debug, PartialEq, Eq)]
pub enum BinaryRuntimeResolved {
    Native { executable: String, env: Vec<(String, String)>, args: Vec<String> },
}

/// The model of a native executable, resolved or not.
pub struct NativeView {
    pub executable: Seq<char>,
    pub env: Seq<(Seq<char>, Seq<char>)>,
    pub args: Seq<Seq<char>>,
}

impl View for BinaryNative {
    type V = NativeView;

    open spec fn view(&self) -> NativeView {
        NativeView {
            executable: self.executable@,
            env: pair_texts(self.env@),
            args: texts(self.args@),
        }
    }
}

impl View for BinaryRuntime {
    type V = NativeView;

    open spec fn view(&self) -> NativeView {
        match self {
            BinaryRuntime::Native(n) => n@,
        }
    }
}

impl View for BinaryRuntimeResolved {
    type V = NativeView;

    open spec fn view(&self) -> NativeView {
        match self {
            BinaryRuntimeResolved::Native { executable, env, args } => NativeView {
                executable: executable@,
                env: pair_texts(env@),
                args: texts(args@),
            },
        }
    }
}

impl Clone for BinaryNative {
    fn clone(&self) -> (r: Self)
        ensures
            r@ == self@,
    {
        BinaryNative {
            executable: self.executable.clone(),
            env: clone_pairs(&self.env),
            args: clone_strings(&self.args),
        }
    }
}

impl Clone for BinaryRuntime {
    fn clone(&self) -> (r: Self)
        ensures
            r@ == self@,
    {
        match self {
            BinaryRuntime::Native(n) => BinaryRuntime::Native(n.clone()),
        }
    }
}

impl Clone for BinaryRuntimeResolved {
    fn clone(&self) -> (r: Self)
        ensures
            r@ == self@,
    {
        match self {
            BinaryRuntimeResolved::Native { executable, env, args } => {
                BinaryRuntimeResolved::Native {
                    executable: executable.clone(),
                    env: clone_pairs(env),
                    args: clone_strings(args),
                }
            },
        }
    }
}

/// The task of finding the executable of a binary.
#[derive(Debug, Clone, Copy, PartialEq, Eq, Structural)]
pub struct BinaryResolve {
    pub schema: Schema,
    pub binary: Binary,
}

impl Database {
    /// Whether the database holds a binary.
    pub open spec fn has_binary(&self, b: Binary) -> bool {
        b.id < self.binaries@.len()
    }

    /// What the database holds of a binary.
    pub fn binary(&self, b: Binary) -> (r: Option<&BinaryData>)
        ensures
            r is Some <==> self.has_binary(b),
            r matches Some(data) ==> *data == self.binaries@[b.id as int],
    {
        if b.id < self.binaries.len() {
            Some(&self.binaries[b.id])
        } else {
            None
        }
    }
}

impl Binary {
    /// Declares a binary.
    pub fn new(db: &mut Database, name: String, runtime: BinaryRuntime) -> (r: Binary)
        ensures
            r.id == old(db).binaries@.len(),
            final(db).binaries@ == old(db).binaries@.push(BinaryData { name, runtime }),
            *final(db) == (Database { binaries: final(db).binaries, ..*old(db) }),
    {
        let id = db.binaries.len();
        db.binaries.push(BinaryData { name, runtime });
        Binary { id }
    }
}

/// The executable that a binary resolved to.
pub open spec fn binary_resolve_outcome(db: Database, schema: Schema, binary: Binary) -> Result<
    NativeView,
    CauseView,
> {
    match db.stored(TaskView::Binary { schema, binary }) {
        Some(Ok(TaskValueView::Binary(n))) => Ok(n),
        Some(Ok(_)) => Err(failure(ErrorKind::WrongKind)),
        Some(Err(c)) => Err(c),
        None => Err(CauseView::Pending),
    }
}

/// The tasks that resolving a binary asks for: the lookup, where nothing is
/// stored for it yet.
pub open spec fn binary_resolve_tasks(db: Database, schema: Schema, binary: Binary) -> Seq<
    TaskView,
> {
    if db.stored(TaskView::Binary { schema, binary }) is None {
        seq![TaskView::Binary { schema, binary }]
    } else {
        Seq::empty()
    }
}

/// The executable that a binary resolved to. While nothing is stored for the
/// lookup, the lookup is recorded as a task and the answer is pending.
pub fn binary_resolve(db: &Database, schema: Schema, binary: Binary, tasks: &mut Vec<RuntimeTask>)
    -> (r: Outcome<BinaryRuntimeResolved>)
    ensures
        match r {
            Ok(v) => binary_resolve_outcome(*db, schema, binary) == Ok::<NativeView, CauseView>(v@),
            Err(c) => binary_resolve_outcome(*db, schema, binary) == Err::<NativeView, CauseView>(
                c@,
            ),
        },
        tasks_view(final(tasks)@) == extended(
            tasks_view(old(tasks)@),
            binary_resolve_tasks(*db, schema, binary),
        ),
{
    proof {
        lemma_extended_none(tasks_view(tasks@));
        lemma_extended_one(tasks_view(tasks@), TaskView::Binary { schema, binary });
    }
    let key = TaskKey::Binary { schema, binary };
    match db.lookup(&key) {
        Some(Ok(TaskValue::Binary(b))) => Ok(b.clone()),
        Some(Ok(_)) => Err(Cause::error(ErrorKind::WrongKind)),
        Some(Err(c)) => Err(c.clone()),
        None => {
            push_task(tasks, RuntimeTask(Job::BinaryResolve(BinaryResolve { schema, binary })));
            Err(Cause::Pending)
        },
    }
}

/// What a lookup makes of a binary: the executable at the path that was
/// found, with the binary's own environment and arguments.
pub open spec fn resolved_at(n: NativeView, path: Seq<char>) -> NativeView {
    NativeView { executable: path, env: n.env, args: n.args }
}

/// What the lookup of a binary's executable came to: the executable at the
/// path that was found, with the binary's own environment and arguments;
/// the failure of the lookup, wrapped; or that the database does not hold
/// the binary.
pub open spec fn binary_outcome(db: Database, binary: Binary, found: Result<String, String>)
    -> Result<NativeView, CauseView> {
    if !db.has_binary(binary) {
        Err(failure(ErrorKind::UnknownBinary))
    } else {
        match found {
            Ok(path) => Ok(resolved_at(db.binaries@[binary.id as int].runtime@, path@)),
            Err(message) => Err(CauseView::Error { kind: ErrorKind::External, detail: message@ }),
        }
    }
}

impl BinaryResolve {
    /// The name of the executable to look up; none where the database does
    /// not hold the binary.
    pub fn executable(&self, db: &Database) -> (r: Option<String>)
        ensures
            r is Some <==> db.has_binary(self.binary),
            r matches Some(name) ==> name@ == db.binaries@[self.binary.id as int].runtime@.executable,
    {
        match db.binary(self.binary) {
            Some(data) => match &data.runtime {
                BinaryRuntime::Native(n) => Some(n.executable.clone()),
            },
            None => None,
        }
    }

    /// What the lookup of the binary's executable came to: the executable
    /// at the path that was found, with the binary's own environment and
    /// arguments; the failure of the lookup, wrapped; or that the database
    /// does not hold the binary.
    pub fn outcome(&self, db: &Database, found: Result<String, String>) -> (r: Outcome<
        BinaryRuntimeResolved,
    >)
        ensures
            match r {
                Ok(b) => binary_outcome(*db, self.binary, found) == Ok::<NativeView, CauseView>(b@),
                Err(c) => binary_outcome(*db, self.binary, found) == Err::<NativeView, CauseView>(
                    c@,
                ),
            },
    {
        match db.binary(self.binary) {
            None => Err(Cause::error(ErrorKind::UnknownBinary)),
            Some(data) => match found {
                Ok(path) => match &data.runtime {
                    BinaryRuntime::Native(n) => Ok(
                        BinaryRuntimeResolved::Native {
                            executable: path,
                            env: clone_pairs(&n.env),
                            args: clone_strings(&n.args),
                        },
                    ),
                },
                Err(message) => Err(Cause::from_err(message)),
            },
        }
    }

    /// Stores what the lookup came to under the task's key. Nothing else in
    /// the database changes.
    pub fn resolve(&self, db: &mut Database, object: Outcome<BinaryRuntimeResolved>)
        ensures
            forall|k: TaskView|
                #[trigger] final(db).stored(k) == if k == (TaskView::Binary {
                    schema: self.schema,
                    binary: self.binary,
                }) {
                    Some(
                        match object {
                            Ok(b) => Ok::<TaskValueView, CauseView>(TaskValueView::Binary(b@)),
                            Err(c) => Err::<TaskValueView, CauseView>(c@),
                        },
                    )
                } else {
                    old(db).stored(k)
                },
            *final(db) == (Database { resolved: final(db).resolved, ..*old(db) }),
    {
        let key = TaskKey::Binary { schema: self.schema, binary: self.binary };
        match object {
            Ok(b) => db.store(key, Ok(TaskValue::Binary(b))),
            Err(c) => db.store(key, Err(c)),
        }
    }
}

} // verus!
