//! Transforms: functions of the scripting collaborator applied file by file.

use vstd::prelude::*;
use crate::binary::{binary_resolve, binary_resolve_outcome, binary_resolve_tasks};
use crate::db::Database;
use crate::deps::{
    extended,
    extract_dependencies,
    input_of,
    lemma_extended_add,
    lemma_extended_no_duplicates,
    refs,
    replace_dependencies,
    substitute,
    Dependency,
    Input,
    Resolutions,
    ResolvedDependency,
    ResolvedView,
};
use crate::error::{failure, Cause, CauseView, ErrorKind, Outcome};
use crate::fileset::{
    file_group_files,
    file_group_files_outcome,
    file_group_files_tasks,
    files_view,
    lemma_files_push,
    push_task,
    tasks_view,
    File,
    FileView,
    Job,
    RuntimeTask,
};
use crate::gather::{clean, finished, noted, Gather, GatherView};
use crate::schema::Schema;
use crate::task::{TaskKey, TaskValue, TaskValueView, TaskView};
use crate::value::{Json, Value};

use crate::deps::{lemma_extended_none, lemma_extended_one};

verus! {

/// A handle to a transform of the database.
#[derive(Debug, Clone, Copy, PartialEq, Eq, Structural, PartialOrd, Ord, Hash)]
pub struct Transform {
    pub id: usize,
}

/// What runs a transform.
#[derive(Debug, Clone, Copy, PartialEq, Eq, Structural)]
pub enum RunnerKind {
    /// A function of the scripting collaborator, by its number there.
    JsFunction(u64),
}

/// What the database holds of a transform.
#[derive(Debug)]
pub struct TransformData {
    pub name: String,
    pub runner: RunnerKind,
    pub input: Value,
    pub dependencies: Value,
}

/// The task of running a transform on one file: the file, the transform,
/// and the transform's dependencies with every reference resolved.
#[derive(Debug)]
pub struct TransformApply {
    pub schema: Schema,
    pub file: File,
    pub transform: Transform,
    pub dependencies: Value,
}

impl Database {
    /// Whether the database holds a transform.
    pub open spec fn has_transform(&self, t: Transform) -> bool {
        t.id < self.transforms@.len()
    }

    /// The `input` value of a transform.
    pub open spec fn transform_input(&self, t: Transform) -> Json {
        self.transforms@[t.id as int].input@
    }

    /// The `dependencies` value of a transform.
    pub open spec fn transform_deps(&self, t: Transform) -> Json {
        self.transforms@[t.id as int].dependencies@
    }

    /// What the database holds of a transform.
    pub fn transform(&self, t: Transform) -> (r: Option<&TransformData>)
        ensures
            r is Some <==> self.has_transform(t),
            r matches Some(data) ==> *data == self.transforms@[t.id as int],
    {
        if t.id < self.transforms.len() {
            Some(&self.transforms[t.id])
        } else {
            None
        }
    }
}

impl Transform {
    /// Declares a transform.
    pub fn new(
        db: &mut Database,
        name: String,
        runner: RunnerKind,
        input: Value,
        dependencies: Value,
    ) -> (r: Transform)
        ensures
            r.id == old(db).transforms@.len(),
            final(db).transforms@ == old(db).transforms@.push(
                TransformData { name, runner, input, dependencies },
            ),
            *final(db) == (Database { transforms: final(db).transforms, ..*old(db) }),
    {
        let id = db.transforms.len();
        db.transforms.push(TransformData { name, runner, input, dependencies });
        Transform { id }
    }
}

/// The references of a value, each once, in the order of their first
/// occurrence.
pub open spec fn unique_refs(v: Json) -> Seq<Dependency> {
    extended(Seq::<Dependency>::empty(), refs(v))
}

/// The inputs among a sequence of references, in order.
pub open spec fn inputs_of(rs: Seq<Dependency>) -> Seq<Input>
    decreases rs.len(),
{
    if rs.len() == 0 {
        Seq::empty()
    } else {
        let rest = inputs_of(rs.drop_last());
        match input_of(rs.last()) {
            Some(i) => rest.push(i),
            None => rest,
        }
    }
}

/// The inputs of a transform.
pub open spec fn transform_inputs_outcome(db: Database, t: Transform) -> Result<
    Seq<Input>,
    CauseView,
> {
    if db.has_transform(t) {
        Ok(inputs_of(unique_refs(db.transform_input(t))))
    } else {
        Err(failure(ErrorKind::UnknownTransform))
    }
}

/// The inputs of a transform: the file groups and transforms that its
/// `input` value refers to, each once, in the order of their first
/// occurrence. Fails where the database does not hold the transform.
pub fn transform_inputs(db: &Database, transform: Transform) -> (r: Outcome<Vec<Input>>)
    ensures
        match r {
            Ok(v) => transform_inputs_outcome(*db, transform) == Ok::<Seq<Input>, CauseView>(v@),
            Err(c) => transform_inputs_outcome(*db, transform) == Err::<Seq<Input>, CauseView>(c@),
        },
{
    let data = match db.transform(transform) {
        Some(data) => data,
        None => {
            return Err(Cause::error(ErrorKind::UnknownTransform));
        },
    };
    let mut buffer: Vec<Dependency> = Vec::new();
    extract_dependencies(&data.input, &mut buffer);
    let mut out: Vec<Input> = Vec::new();
    let mut i: usize = 0;
    assert(buffer@.take(0) =~= Seq::<Dependency>::empty());
    while i < buffer.len()
        invariant
            i <= buffer.len(),
            out@ == inputs_of(buffer@.take(i as int)),
        decreases buffer.len() - i,
    {
        assert(buffer@.take(i + 1).drop_last() =~= buffer@.take(i as int));
        assert(buffer@.take(i + 1).last() == buffer@[i as int]);
        match buffer[i].to_input_kind() {
            Some(input) => {
                out.push(input);
            },
            None => {},
        }
        i += 1;
    }
    assert(buffer@.take(buffer.len() as int) =~= buffer@);
    Ok(out)
}

/// What an evaluation comes to: its outcome, and the tasks it asks for.
pub type Eval<V> = (Result<V, CauseView>, Seq<TaskView>);

/// Files as a resolved reference.
pub open spec fn as_files(r: Result<Seq<FileView>, CauseView>) -> Result<ResolvedView, CauseView> {
    match r {
        Ok(files) => Ok(ResolvedView::Files(files)),
        Err(c) => Err(c),
    }
}

/// The files of an input. A transform as input is followed only `depth`
/// levels down.
pub open spec fn input_files_eval(db: Database, schema: Schema, input: Input, depth: nat) -> Eval<
    Seq<FileView>,
>
    decreases depth, 3nat, 0nat,
{
    match input {
        Input::FileGroup(g) => (
            file_group_files_outcome(db, schema, g),
            file_group_files_tasks(db, schema, g),
        ),
        Input::Transform(t) => if depth == 0 {
            (Err(failure(ErrorKind::Cycle)), Seq::empty())
        } else {
            transform_files_eval(db, schema, t, (depth - 1) as nat)
        },
    }
}

/// What a reference resolves to: a toolchain to the executable of its
/// binary, a file group or a transform to its files.
pub open spec fn dependency_eval(db: Database, schema: Schema, dep: Dependency, depth: nat) -> Eval<
    ResolvedView,
>
    decreases depth, 3nat, 0nat,
{
    match dep {
        Dependency::Toolchain(b) => (
            match binary_resolve_outcome(db, schema, b) {
                Ok(n) => Ok(ResolvedView::Binary(n)),
                Err(c) => Err(c),
            },
            binary_resolve_tasks(db, schema, b),
        ),
        Dependency::FileGroup(g) => (
            as_files(file_group_files_outcome(db, schema, g)),
            file_group_files_tasks(db, schema, g),
        ),
        Dependency::Transform(t) => if depth == 0 {
            (Err(failure(ErrorKind::Cycle)), Seq::empty())
        } else {
            let (r, tasks) = transform_files_eval(db, schema, t, (depth - 1) as nat);
            (as_files(r), tasks)
        },
    }
}

/// Resolving a sequence of references, each a branch of its own: what the
/// branches came to, what the references resolved to, and the tasks asked
/// for.
pub open spec fn dependencies_fold(db: Database, schema: Schema, deps: Seq<Dependency>, depth: nat)
    -> (GatherView, Map<Dependency, ResolvedView>, Seq<TaskView>)
    decreases depth, 4nat, deps.len(),
{
    if deps.len() == 0 {
        (clean(), Map::empty(), Seq::empty())
    } else {
        let (g, m, tasks) = dependencies_fold(db, schema, deps.drop_last(), depth);
        let (r, more) = dependency_eval(db, schema, deps.last(), depth);
        match r {
            Ok(v) => (g, m.insert(deps.last(), v), tasks + more),
            Err(c) => (noted(g, c), m, tasks + more),
        }
    }
}

/// The `dependencies` value of a transform with every reference resolved.
pub open spec fn transform_dependencies_eval(db: Database, schema: Schema, t: Transform, depth: nat)
    -> Eval<Json>
    decreases depth, 5nat, 0nat,
{
    if !db.has_transform(t) {
        (Err(failure(ErrorKind::UnknownTransform)), Seq::empty())
    } else {
        let (g, m, tasks) = dependencies_fold(
            db,
            schema,
            unique_refs(db.transform_deps(t)),
            depth,
        );
        (finished(g, substitute(db.transform_deps(t), m)), tasks)
    }
}

/// The key under which the result of a transform for a file is stored.
pub open spec fn apply_key(schema: Schema, t: Transform, file: FileView, dependencies: Json)
    -> TaskView {
    TaskView::Apply { schema, transform: t, file, dependencies }
}

/// The file that a transform makes of a file.
pub open spec fn transform_result_eval(
    db: Database,
    schema: Schema,
    t: Transform,
    file: FileView,
    depth: nat,
) -> Eval<FileView>
    decreases depth, 6nat, 0nat,
{
    let (d, tasks) = transform_dependencies_eval(db, schema, t, depth);
    match d {
        Err(c) => (Err(c), tasks),
        Ok(json) => match db.stored(apply_key(schema, t, file, json)) {
            Some(Ok(TaskValueView::File(f))) => (Ok(f), tasks),
            Some(Ok(_)) => (Err(failure(ErrorKind::WrongKind)), tasks),
            Some(Err(c)) => (Err(c), tasks),
            None => (Err(CauseView::Pending), tasks + seq![apply_key(schema, t, file, json)]),
        },
    }
}

/// Applying a transform to a sequence of files, each a branch of its own,
/// on top of what earlier branches came to and produced.
pub open spec fn results_fold(
    db: Database,
    schema: Schema,
    t: Transform,
    files: Seq<FileView>,
    depth: nat,
    g0: GatherView,
    out0: Seq<FileView>,
) -> (GatherView, Seq<FileView>, Seq<TaskView>)
    decreases depth, 7nat, files.len(),
{
    if files.len() == 0 {
        (g0, out0, Seq::empty())
    } else {
        let (g, out, tasks) = results_fold(db, schema, t, files.drop_last(), depth, g0, out0);
        let (r, more) = transform_result_eval(db, schema, t, files.last(), depth);
        match r {
            Ok(f) => (g, out.push(f), tasks + more),
            Err(c) => (noted(g, c), out, tasks + more),
        }
    }
}

/// Applying a transform to the files of a sequence of inputs, each input a
/// branch of its own.
pub open spec fn inputs_fold(
    db: Database,
    schema: Schema,
    t: Transform,
    inputs: Seq<Input>,
    depth: nat,
) -> (GatherView, Seq<FileView>, Seq<TaskView>)
    decreases depth, 8nat, inputs.len(),
{
    if inputs.len() == 0 {
        (clean(), Seq::empty(), Seq::empty())
    } else {
        let (g, out, tasks) = inputs_fold(db, schema, t, inputs.drop_last(), depth);
        let (r, more) = input_files_eval(db, schema, inputs.last(), depth);
        match r {
            Err(c) => (noted(g, c), out, tasks + more),
            Ok(files) => {
                let (g2, out2, more2) = results_fold(db, schema, t, files, depth, g, out);
                (g2, out2, tasks + more + more2)
            },
        }
    }
}

/// The files that a transform produces: one for each file of its inputs.
pub open spec fn transform_files_eval(db: Database, schema: Schema, t: Transform, depth: nat)
    -> Eval<Seq<FileView>>
    decreases depth, 9nat, 0nat,
{
    if !db.has_transform(t) {
        (Err(failure(ErrorKind::UnknownTransform)), Seq::empty())
    } else {
        let (g, out, tasks) = inputs_fold(
            db,
            schema,
            t,
            inputs_of(unique_refs(db.transform_input(t))),
            depth,
        );
        (finished(g, out), tasks)
    }
}

/// Whether files are what an evaluation says.
pub open spec fn files_are(r: Outcome<Vec<File>>, s: Result<Seq<FileView>, CauseView>) -> bool {
    match r {
        Ok(v) => s == Ok::<Seq<FileView>, CauseView>(files_view(v@)),
        Err(c) => s == Err::<Seq<FileView>, CauseView>(c@),
    }
}

/// Whether a list of tasks grew by what an evaluation asks for.
pub open spec fn grown(before: Seq<RuntimeTask>, after: Seq<RuntimeTask>, more: Seq<TaskView>)
    -> bool {
    tasks_view(after) == extended(tasks_view(before), more)
}

/// The files of an input, transforms followed `depth` levels down.
pub(crate) fn input_files(
    db: &Database,
    schema: Schema,
    input: Input,
    depth: usize,
    tasks: &mut Vec<RuntimeTask>,
) -> (r: Outcome<Vec<File>>)
    ensures
        files_are(r, input_files_eval(*db, schema, input, depth as nat).0),
        grown(old(tasks)@, final(tasks)@, input_files_eval(*db, schema, input, depth as nat).1),
    decreases depth, 3nat, 0nat,
{
    match input {
        Input::FileGroup(g) => file_group_files(db, schema, g, tasks),
        Input::Transform(t) => {
            if depth == 0 {
                proof {
                    lemma_extended_none(tasks_view(tasks@));
                }
                Err(Cause::error(ErrorKind::Cycle))
            } else {
                transform_files_at(db, schema, t, depth - 1, tasks)
            }
        },
    }
}

/// What a reference resolves to, transforms followed `depth` levels down.
fn dependency(
    db: &Database,
    schema: Schema,
    dep: Dependency,
    depth: usize,
    tasks: &mut Vec<RuntimeTask>,
) -> (r: Outcome<ResolvedDependency>)
    ensures
        match r {
            Ok(v) => dependency_eval(*db, schema, dep, depth as nat).0 == Ok::<
                ResolvedView,
                CauseView,
            >(v@),
            Err(c) => dependency_eval(*db, schema, dep, depth as nat).0 == Err::<
                ResolvedView,
                CauseView,
            >(c@),
        },
        grown(old(tasks)@, final(tasks)@, dependency_eval(*db, schema, dep, depth as nat).1),
    decreases depth, 3nat, 0nat,
{
    match dep {
        Dependency::Toolchain(b) => match binary_resolve(db, schema, b, tasks) {
            Ok(resolved) => Ok(ResolvedDependency::Binary(resolved)),
            Err(c) => Err(c),
        },
        Dependency::FileGroup(g) => match file_group_files(db, schema, g, tasks) {
            Ok(files) => Ok(ResolvedDependency::Files(files)),
            Err(c) => Err(c),
        },
        Dependency::Transform(t) => {
            if depth == 0 {
                proof {
                    lemma_extended_none(tasks_view(tasks@));
                }
                Err(Cause::error(ErrorKind::Cycle))
            } else {
                match transform_files_at(db, schema, t, depth - 1, tasks) {
                    Ok(files) => Ok(ResolvedDependency::Files(files)),
                    Err(c) => Err(c),
                }
            }
        },
    }
}

/// The `dependencies` value of a transform with every reference resolved,
/// transforms followed `depth` levels down.
fn transform_dependencies_at(
    db: &Database,
    schema: Schema,
    transform: Transform,
    depth: usize,
    tasks: &mut Vec<RuntimeTask>,
) -> (r: Outcome<Value>)
    ensures
        match r {
            Ok(v) => transform_dependencies_eval(*db, schema, transform, depth as nat).0 == Ok::<
                Json,
                CauseView,
            >(v@),
            Err(c) => transform_dependencies_eval(*db, schema, transform, depth as nat).0 == Err::<
                Json,
                CauseView,
            >(c@),
        },
        grown(
            old(tasks)@,
            final(tasks)@,
            transform_dependencies_eval(*db, schema, transform, depth as nat).1,
        ),
    decreases depth, 5nat, 0nat,
{
    proof {
        lemma_extended_none(tasks_view(tasks@));
    }
    let data = match db.transform(transform) {
        Some(data) => data,
        None => {
            return Err(Cause::error(ErrorKind::UnknownTransform));
        },
    };
    let mut buffer: Vec<Dependency> = Vec::new();
    extract_dependencies(&data.dependencies, &mut buffer);
    let ghost deps = buffer@;
    let mut gather = Gather::new();
    let mut resolved = Resolutions::new();
    let ghost mut emitted: Seq<TaskView> = Seq::empty();
    let mut i: usize = 0;
    assert(deps.take(0) =~= Seq::<Dependency>::empty());
    while i < buffer.len()
        invariant
            i <= buffer.len(),
            deps == buffer@,
            gather@ == dependencies_fold(*db, schema, deps.take(i as int), depth as nat).0,
            resolved@ == dependencies_fold(*db, schema, deps.take(i as int), depth as nat).1,
            emitted == dependencies_fold(*db, schema, deps.take(i as int), depth as nat).2,
            tasks_view(tasks@) == extended(tasks_view(old(tasks)@), emitted),
            gather@ == clean() ==> forall|j: int|
                0 <= j < i ==> resolved@.contains_key(#[trigger] deps[j]),
        decreases buffer.len() - i,
    {
        assert(deps.take(i + 1).drop_last() =~= deps.take(i as int));
        assert(deps.take(i + 1).last() == deps[i as int]);
        let ghost more = dependency_eval(*db, schema, deps[i as int], depth as nat).1;
        proof {
            lemma_extended_add(tasks_view(old(tasks)@), emitted, more);
        }
        match dependency(db, schema, buffer[i], depth, tasks) {
            Ok(value) => {
                resolved.insert(buffer[i], value);
            },
            Err(c) => {
                gather.note(c);
            },
        }
        proof {
            emitted = emitted + more;
        }
        i += 1;
    }
    assert(deps.take(buffer.len() as int) =~= deps);
    match gather.cause() {
        Some(c) => Err(c),
        None => {
            let mut value = data.dependencies.clone();
            proof {
                lemma_extended_no_duplicates(Seq::<Dependency>::empty(), refs(value@));
                assert forall|k: int| 0 <= k < refs(value@).len() implies resolved@.contains_key(
                    #[trigger] refs(value@)[k],
                ) by {
                    let d = refs(value@)[k];
                    assert(refs(value@).contains(d));
                    assert(deps.contains(d));
                    let j = choose|j: int| 0 <= j < deps.len() && deps[j] == d;
                    assert(resolved@.contains_key(deps[j]));
                }
            }
            replace_dependencies(&mut value, &resolved);
            Ok(value)
        },
    }
}

/// The file that a transform makes of a file, transforms followed `depth`
/// levels down.
fn transform_result_at(
    db: &Database,
    schema: Schema,
    transform: Transform,
    file: &File,
    depth: usize,
    tasks: &mut Vec<RuntimeTask>,
) -> (r: Outcome<File>)
    ensures
        match r {
            Ok(v) => transform_result_eval(*db, schema, transform, file@, depth as nat).0 == Ok::<
                FileView,
                CauseView,
            >(v@),
            Err(c) => transform_result_eval(*db, schema, transform, file@, depth as nat).0 == Err::<
                FileView,
                CauseView,
            >(c@),
        },
        grown(
            old(tasks)@,
            final(tasks)@,
            transform_result_eval(*db, schema, transform, file@, depth as nat).1,
        ),
    decreases depth, 6nat, 0nat,
{
    let dependencies = match transform_dependencies_at(db, schema, transform, depth, tasks) {
        Ok(dependencies) => dependencies,
        Err(c) => {
            return Err(c);
        },
    };
    let ghost first = transform_dependencies_eval(*db, schema, transform, depth as nat).1;
    let ghost key_view = apply_key(schema, transform, file@, dependencies@);
    proof {
        lemma_extended_add(tasks_view(old(tasks)@), first, seq![key_view]);
        lemma_extended_one(tasks_view(tasks@), key_view);
    }
    let key = TaskKey::Apply { schema, transform, file: file.clone(), dependencies };
    match db.lookup(&key) {
        Some(Ok(TaskValue::File(f))) => Ok(f.clone()),
        Some(Ok(_)) => Err(Cause::error(ErrorKind::WrongKind)),
        Some(Err(c)) => Err(c.clone()),
        None => {
            match key {
                TaskKey::Apply { schema, transform, file, dependencies } => {
                    push_task(
                        tasks,
                        RuntimeTask(
                            Job::TransformApply(
                                TransformApply { schema, file, transform, dependencies },
                            ),
                        ),
                    );
                },
                _ => {},
            }
            Err(Cause::Pending)
        },
    }
}

/// Applies a transform to each of a list of files, on top of what earlier
/// branches came to and produced.
fn transform_results(
    db: &Database,
    schema: Schema,
    transform: Transform,
    files: &Vec<File>,
    depth: usize,
    gather: &mut Gather,
    out: &mut Vec<File>,
    tasks: &mut Vec<RuntimeTask>,
)
    ensures
        final(gather)@ == results_fold(
            *db,
            schema,
            transform,
            files_view(files@),
            depth as nat,
            old(gather)@,
            files_view(old(out)@),
        ).0,
        files_view(final(out)@) == results_fold(
            *db,
            schema,
            transform,
            files_view(files@),
            depth as nat,
            old(gather)@,
            files_view(old(out)@),
        ).1,
        grown(
            old(tasks)@,
            final(tasks)@,
            results_fold(
                *db,
                schema,
                transform,
                files_view(files@),
                depth as nat,
                old(gather)@,
                files_view(old(out)@),
            ).2,
        ),
    decreases depth, 7nat, 0nat,
{
    let ghost all = files_view(files@);
    let ghost g0 = gather@;
    let ghost out0 = files_view(out@);
    let ghost mut emitted: Seq<TaskView> = Seq::empty();
    let mut i: usize = 0;
    proof {
        lemma_extended_none(tasks_view(tasks@));
        assert(all.take(0) =~= Seq::<FileView>::empty());
    }
    while i < files.len()
        invariant
            i <= files.len(),
            all == files_view(files@),
            gather@ == results_fold(*db, schema, transform, all.take(i as int), depth as nat, g0, out0).0,
            files_view(out@) == results_fold(
                *db,
                schema,
                transform,
                all.take(i as int),
                depth as nat,
                g0,
                out0,
            ).1,
            emitted == results_fold(*db, schema, transform, all.take(i as int), depth as nat, g0, out0).2,
            tasks_view(tasks@) == extended(tasks_view(old(tasks)@), emitted),
        decreases files.len() - i,
    {
        assert(all.take(i + 1).drop_last() =~= all.take(i as int));
        assert(all.take(i + 1).last() == files[i as int]@);
        let ghost more = transform_result_eval(*db, schema, transform, files[i as int]@, depth as nat).1;
        proof {
            lemma_extended_add(tasks_view(old(tasks)@), emitted, more);
        }
        match transform_result_at(db, schema, transform, &files[i], depth, tasks) {
            Ok(file) => {
                proof {
                    lemma_files_push(out@, file);
                }
                out.push(file);
            },
            Err(c) => {
                gather.note(c);
            },
        }
        proof {
            emitted = emitted + more;
        }
        i += 1;
    }
    assert(all.take(files.len() as int) =~= all);
}

/// The files that a transform produces, transforms followed `depth` levels
/// down.
fn transform_files_at(
    db: &Database,
    schema: Schema,
    transform: Transform,
    depth: usize,
    tasks: &mut Vec<RuntimeTask>,
) -> (r: Outcome<Vec<File>>)
    ensures
        files_are(r, transform_files_eval(*db, schema, transform, depth as nat).0),
        grown(
            old(tasks)@,
            final(tasks)@,
            transform_files_eval(*db, schema, transform, depth as nat).1,
        ),
    decreases depth, 9nat, 0nat,
{
    proof {
        lemma_extended_none(tasks_view(tasks@));
    }
    let inputs = match transform_inputs(db, transform) {
        Ok(inputs) => inputs,
        Err(c) => {
            return Err(c);
        },
    };
    let mut gather = Gather::new();
    let mut out: Vec<File> = Vec::new();
    let ghost mut emitted: Seq<TaskView> = Seq::empty();
    let mut i: usize = 0;
    assert(inputs@.take(0) =~= Seq::<Input>::empty());
    assert(files_view(out@) =~= Seq::<FileView>::empty());
    while i < inputs.len()
        invariant
            i <= inputs.len(),
            gather@ == inputs_fold(*db, schema, transform, inputs@.take(i as int), depth as nat).0,
            files_view(out@) == inputs_fold(
                *db,
                schema,
                transform,
                inputs@.take(i as int),
                depth as nat,
            ).1,
            emitted == inputs_fold(*db, schema, transform, inputs@.take(i as int), depth as nat).2,
            tasks_view(tasks@) == extended(tasks_view(old(tasks)@), emitted),
        decreases inputs.len() - i,
    {
        assert(inputs@.take(i + 1).drop_last() =~= inputs@.take(i as int));
        assert(inputs@.take(i + 1).last() == inputs@[i as int]);
        let ghost more = input_files_eval(*db, schema, inputs@[i as int], depth as nat).1;
        proof {
            lemma_extended_add(tasks_view(old(tasks)@), emitted, more);
        }
        match input_files(db, schema, inputs[i], depth, tasks) {
            Ok(files) => {
                let ghost more2 = results_fold(
                    *db,
                    schema,
                    transform,
                    files_view(files@),
                    depth as nat,
                    gather@,
                    files_view(out@),
                ).2;
                proof {
                    lemma_extended_add(tasks_view(old(tasks)@), emitted + more, more2);
                }
                transform_results(db, schema, transform, &files, depth, &mut gather, &mut out, tasks);
                proof {
                    emitted = emitted + more + more2;
                }
            },
            Err(c) => {
                gather.note(c);
                proof {
                    emitted = emitted + more;
                }
            },
        }
        i += 1;
    }
    assert(inputs@.take(inputs.len() as int) =~= inputs@);
    match gather.cause() {
        Some(c) => Err(c),
        None => Ok(out),
    }
}

/// The `dependencies` value of a transform with the resolved value in the
/// place of every reference: a toolchain resolved to the executable of its
/// binary, a file group or a transform to its files.
///
/// Every reference is a branch of its own: all are evaluated, so that all
/// their tasks are recorded. Pending where a branch is pending; else the
/// first failure; else the substituted value. Fails where the database does
/// not hold the transform.
pub fn transform_dependencies(
    db: &Database,
    schema: Schema,
    transform: Transform,
    tasks: &mut Vec<RuntimeTask>,
) -> (r: Outcome<Value>)
    ensures
        match r {
            Ok(v) => transform_dependencies_eval(
                *db,
                schema,
                transform,
                db.transforms@.len(),
            ).0 == Ok::<Json, CauseView>(v@),
            Err(c) => transform_dependencies_eval(
                *db,
                schema,
                transform,
                db.transforms@.len(),
            ).0 == Err::<Json, CauseView>(c@),
        },
        grown(
            old(tasks)@,
            final(tasks)@,
            transform_dependencies_eval(*db, schema, transform, db.transforms@.len()).1,
        ),
{
    transform_dependencies_at(db, schema, transform, db.transforms.len(), tasks)
}

/// The file that a transform makes of a file: what is stored for that
/// transform, that file at that revision, and those resolved dependencies.
/// While nothing is stored, the application is recorded as a task and the
/// answer is pending. Without the resolved dependencies there is neither a
/// task nor an answer.
pub fn transform_result_for_file(
    db: &Database,
    schema: Schema,
    transform: Transform,
    file: &File,
    tasks: &mut Vec<RuntimeTask>,
) -> (r: Outcome<File>)
    ensures
        match r {
            Ok(v) => transform_result_eval(
                *db,
                schema,
                transform,
                file@,
                db.transforms@.len(),
            ).0 == Ok::<FileView, CauseView>(v@),
            Err(c) => transform_result_eval(
                *db,
                schema,
                transform,
                file@,
                db.transforms@.len(),
            ).0 == Err::<FileView, CauseView>(c@),
        },
        grown(
            old(tasks)@,
            final(tasks)@,
            transform_result_eval(*db, schema, transform, file@, db.transforms@.len()).1,
        ),
{
    transform_result_at(db, schema, transform, file, db.transforms.len(), tasks)
}

/// The files that a transform produces: for each file of each of its
/// inputs, in order, the file that the transform makes of it.
///
/// Every input and every file is a branch of its own: all are evaluated,
/// so that all their tasks are recorded. Pending where a branch is pending;
/// else the first failure; else the files. An input that is a transform is
/// followed as many levels down as the database holds transforms; deeper
/// nesting is a cycle and fails.
pub fn transform_files(
    db: &Database,
    schema: Schema,
    transform: Transform,
    tasks: &mut Vec<RuntimeTask>,
) -> (r: Outcome<Vec<File>>)
    ensures
        files_are(r, transform_files_eval(*db, schema, transform, db.transforms@.len()).0),
        grown(
            old(tasks)@,
            final(tasks)@,
            transform_files_eval(*db, schema, transform, db.transforms@.len()).1,
        ),
{
    transform_files_at(db, schema, transform, db.transforms.len(), tasks)
}

impl TransformApply {
    /// Stores the file that the transform made under the task's key.
    /// Nothing else in the database changes.
    pub fn resolve(&self, db: &mut Database, produced: Outcome<File>)
        ensures
            forall|k: TaskView|
                #[trigger] final(db).stored(k) == if k == apply_key(
                    self.schema,
                    self.transform,
                    self.file@,
                    self.dependencies@,
                ) {
                    Some(
                        match produced {
                            Ok(f) => Ok::<TaskValueView, CauseView>(TaskValueView::File(f@)),
                            Err(c) => Err::<TaskValueView, CauseView>(c@),
                        },
                    )
                } else {
                    old(db).stored(k)
                },
            *final(db) == (Database { resolved: final(db).resolved, ..*old(db) }),
    {
        let key = TaskKey::Apply {
            schema: self.schema,
            transform: self.transform,
            file: self.file.clone(),
            dependencies: self.dependencies.clone(),
        };
        match produced {
            Ok(f) => db.store(key, Ok(TaskValue::File(f))),
            Err(c) => db.store(key, Err(c)),
        }
    }
}

} // verus!
