//! What holds of the queries whatever the database.

use vstd::prelude::*;
use crate::assoc::{first_where, lemma_first_where};
use crate::db::Database;
use crate::deps::{extended, lemma_extended_contains, lemma_extended_held};
use crate::drive::{query_outcome, query_tasks, Answer, AnswerView, Query};
use crate::error::{CauseView, Outcome};
use crate::fileset::{
    attached_at,
    discovered,
    file_group_files_outcome,
    file_group_files_tasks,
    groups_at,
    is_group,
    lemma_attached_at,
    lemma_roots_of,
    matched,
    request_compiles,
    root_request,
    DiscoveredView,
    FileGroup,
    FileView,
};
use crate::roots::Attachment;
use crate::schema::Schema;
use crate::task::{GroupPatternsView, TaskValueView, TaskView};
use crate::collection::items_fold;
use crate::deps::{Dependency, Input};
use crate::gather::GatherView;
use crate::transform::{
    apply_key,
    dependencies_fold,
    dependency_eval,
    input_files_eval,
    inputs_fold,
    results_fold,
    transform_dependencies_eval,
    transform_files_eval,
    transform_result_eval,
    Transform,
};

verus! {

/// Whether a value is what a query comes to on a database.
pub open spec fn answers(db: Database, q: Query, r: Outcome<Answer>) -> bool {
    match r {
        Ok(a) => query_outcome(db, q) == Ok::<AnswerView, CauseView>(a@),
        Err(c) => query_outcome(db, q) == Err::<AnswerView, CauseView>(c@),
    }
}

/// The model of the outcome of a query.
pub open spec fn answer_view(r: Outcome<Answer>) -> Result<AnswerView, CauseView> {
    match r {
        Ok(a) => Ok(a@),
        Err(c) => Err(c@),
    }
}

/// Asking again changes nothing: two evaluations of a query on the same
/// database come to the same outcome, and the second records no task that
/// the first did not record.
pub proof fn lemma_requery(
    db: Database,
    q: Query,
    first: Outcome<Answer>,
    second: Outcome<Answer>,
    tasks: Seq<TaskView>,
)
    requires
        answers(db, q, first),
        answers(db, q, second),
    ensures
        answer_view(first) == answer_view(second),
        extended(extended(tasks, query_tasks(db, q)), query_tasks(db, q)) == extended(
            tasks,
            query_tasks(db, q),
        ),
{
    let more = query_tasks(db, q);
    lemma_extended_contains(tasks, more);
    assert forall|i: int| 0 <= i < more.len() implies extended(tasks, more).contains(
        #[trigger] more[i],
    ) by {
        assert(more.contains(more[i]));
    }
    lemma_extended_held(extended(tasks, more), more);
}

/// The groups listed under a root are those attached to it, each with the
/// prefix it is attached with.
pub proof fn lemma_groups_at(a: Set<Attachment>, gs: Seq<FileGroup>, root: Seq<Seq<char>>)
    ensures
        forall|i: int|
            0 <= i < groups_at(a, gs, root).len() ==> attached_at(
                a,
                (#[trigger] groups_at(a, gs, root)[i]).0,
            ) == Some((root, groups_at(a, gs, root)[i].1)),
        forall|k: int|
            0 <= k < gs.len() && attached_at(a, #[trigger] gs[k]) is Some && (attached_at(
                a,
                gs[k],
            )->0).0 == root ==> groups_at(a, gs, root).contains(
                (gs[k], (attached_at(a, gs[k])->0).1),
            ),
    decreases gs.len(),
{
    if gs.len() > 0 {
        lemma_groups_at(a, gs.drop_last(), root);
        let rest = groups_at(a, gs.drop_last(), root);
        let all = groups_at(a, gs, root);
        assert forall|i: int| 0 <= i < all.len() implies attached_at(a, (#[trigger] all[i]).0)
            == Some((root, all[i].1)) by {
            if i < rest.len() {
                assert(all[i] == rest[i]);
            }
        }
        assert forall|k: int|
            0 <= k < gs.len() && attached_at(a, #[trigger] gs[k]) is Some && (attached_at(
                a,
                gs[k],
            )->0).0 == root implies all.contains((gs[k], (attached_at(a, gs[k])->0).1)) by {
            let p = (attached_at(a, gs[k])->0).1;
            if k < gs.len() - 1 {
                assert(gs.drop_last()[k] == gs[k]);
                assert(rest.contains((gs[k], p)));
                let i = choose|i: int| 0 <= i < rest.len() && rest[i] == (gs[k], p);
                assert(all[i] == rest[i]);
            } else {
                assert(all == rest.push((gs[k], p)));
                assert(all[rest.len() as int] == (gs[k], p));
            }
        }
    }
}

/// Whether a path is the root directory of one of the file groups of a
/// sequence, and lies under the root directory of no other.
pub open spec fn outermost(db: Database, gs: Seq<FileGroup>, r: Seq<Seq<char>>) -> bool {
    &&& exists|i: int| 0 <= i < gs.len() && db.has_group(#[trigger] gs[i]) && db.group_root(gs[i]) == r
    &&& forall|j: int|
        0 <= j < gs.len() && db.has_group(#[trigger] gs[j]) && db.group_root(gs[j]).is_prefix_of(r)
            ==> db.group_root(gs[j]) == r
}

/// Every root is the root directory of one of the file groups.
pub proof fn lemma_roots_are_group_roots(db: Database, gs: Seq<FileGroup>)
    ensures
        forall|r: Seq<Seq<char>>|
            crate::fileset::roots_of(db, gs).0.contains(r) ==> exists|i: int|
                0 <= i < gs.len() && db.has_group(#[trigger] gs[i]) && db.group_root(gs[i]) == r,
    decreases gs.len(),
{
    if gs.len() > 0 {
        let before = gs.drop_last();
        lemma_roots_are_group_roots(db, before);
        assert forall|r: Seq<Seq<char>>|
            crate::fileset::roots_of(db, gs).0.contains(r) implies exists|i: int|
            0 <= i < gs.len() && db.has_group(#[trigger] gs[i]) && db.group_root(gs[i]) == r by {
            if crate::fileset::roots_of(db, before).0.contains(r) {
                let i = choose|i: int|
                    0 <= i < before.len() && db.has_group(#[trigger] before[i]) && db.group_root(
                        before[i],
                    ) == r;
                assert(gs[i] == before[i]);
            } else {
                assert(db.has_group(gs[gs.len() - 1]));
            }
        }
    }
}

/// A sequence is a prefix of itself with more appended, and what is left
/// after it is what was appended.
pub proof fn lemma_prefix_of_add<T>(a: Seq<T>, b: Seq<T>)
    ensures
        a.is_prefix_of(a + b),
        (a + b).skip(a.len() as int) == b,
{
    assert(a =~= (a + b).subrange(0, a.len() as int));
    assert((a + b).skip(a.len() as int) =~= b);
}

/// A prefix of a prefix is a prefix.
pub proof fn lemma_prefix_chain<T>(a: Seq<T>, b: Seq<T>, c: Seq<T>)
    requires
        a.is_prefix_of(b),
        b.is_prefix_of(c),
    ensures
        a.is_prefix_of(c),
{
    assert(a =~= c.subrange(0, a.len() as int));
}

/// Two sequences that are prefixes of each other are the same.
pub proof fn lemma_prefix_both<T>(a: Seq<T>, b: Seq<T>)
    requires
        a.is_prefix_of(b),
        b.is_prefix_of(a),
    ensures
        a == b,
{
    assert(a =~= b);
}

/// A root lies under the root directory of no file group but itself.
proof fn lemma_root_is_outermost(db: Database, gs: Seq<FileGroup>, r: Seq<Seq<char>>, j: int)
    requires
        crate::fileset::roots_of(db, gs).0.contains(r),
        0 <= j < gs.len(),
        db.has_group(gs[j]),
        db.group_root(gs[j]).is_prefix_of(r),
    ensures
        db.group_root(gs[j]) == r,
{
    let (roots, attached) = crate::fileset::roots_of(db, gs);
    lemma_roots_of(db, gs);
    let t = choose|t: Attachment| #[trigger] attached.contains(t) && t.1 == gs[j];
    lemma_prefix_of_add(t.0, t.2);
    lemma_prefix_chain(t.0, db.group_root(gs[j]), r);
    assert(roots.contains(t.0));
    assert(t.0 == r);
    lemma_prefix_both(db.group_root(gs[j]), r);
}

/// A root directory of a file group that lies under no other is a root.
proof fn lemma_outermost_is_root(db: Database, gs: Seq<FileGroup>, r: Seq<Seq<char>>)
    requires
        outermost(db, gs, r),
    ensures
        crate::fileset::roots_of(db, gs).0.contains(r),
{
    let (roots, attached) = crate::fileset::roots_of(db, gs);
    lemma_roots_of(db, gs);
    lemma_roots_are_group_roots(db, gs);
    let i = choose|i: int|
        0 <= i < gs.len() && db.has_group(#[trigger] gs[i]) && db.group_root(gs[i]) == r;
    let t = choose|t: Attachment| #[trigger] attached.contains(t) && t.1 == gs[i];
    lemma_prefix_of_add(t.0, t.2);
    assert(roots.contains(t.0));
    let k = choose|k: int|
        0 <= k < gs.len() && db.has_group(#[trigger] gs[k]) && db.group_root(gs[k]) == t.0;
    assert(db.group_root(gs[k]) == r);
}

/// A file group is attached to the root that covers its root directory,
/// with what is left of its root directory below that root.
proof fn lemma_attached_where_covered(db: Database, gs: Seq<FileGroup>, i: int)
    requires
        0 <= i < gs.len(),
        db.has_group(gs[i]),
    ensures
        attached_at(crate::fileset::roots_of(db, gs).1, gs[i]) is Some,
        crate::fileset::roots_of(db, gs).0.contains(
            (attached_at(crate::fileset::roots_of(db, gs).1, gs[i])->0).0,
        ),
        (attached_at(crate::fileset::roots_of(db, gs).1, gs[i])->0).0.is_prefix_of(
            db.group_root(gs[i]),
        ),
        (attached_at(crate::fileset::roots_of(db, gs).1, gs[i])->0).1 == db.group_root(gs[i]).skip(
            (attached_at(crate::fileset::roots_of(db, gs).1, gs[i])->0).0.len() as int,
        ),
{
    let (roots, attached) = crate::fileset::roots_of(db, gs);
    lemma_roots_of(db, gs);
    let t = choose|t: Attachment| #[trigger] attached.contains(t) && t.1 == gs[i];
    lemma_attached_at(roots, attached, t);
    lemma_prefix_of_add(t.0, t.2);
    assert(roots.contains(t.0));
}

/// Root coalescing. Whatever the order in which the file groups are
/// attached, the roots are the root directories of file groups that lie
/// under no other, and every file group that the database holds is attached
/// to the root that covers its root directory, with what is left of its root
/// directory below that root as its prefix.
pub proof fn lemma_roots_coalesce(db: Database, gs: Seq<FileGroup>)
    ensures
        forall|r: Seq<Seq<char>>|
            crate::fileset::roots_of(db, gs).0.contains(r) <==> outermost(db, gs, r),
        forall|i: int|
            0 <= i < gs.len() && db.has_group(#[trigger] gs[i]) ==> {
                let at = attached_at(crate::fileset::roots_of(db, gs).1, gs[i]);
                &&& at is Some
                &&& outermost(db, gs, (at->0).0)
                &&& (at->0).0.is_prefix_of(db.group_root(gs[i]))
                &&& (at->0).1 == db.group_root(gs[i]).skip((at->0).0.len() as int)
            },
{
    let (roots, attached) = crate::fileset::roots_of(db, gs);
    lemma_roots_are_group_roots(db, gs);
    assert forall|r: Seq<Seq<char>>| roots.contains(r) <==> outermost(db, gs, r) by {
        if roots.contains(r) {
            assert forall|j: int|
                0 <= j < gs.len() && db.has_group(#[trigger] gs[j]) && db.group_root(
                    gs[j],
                ).is_prefix_of(r) implies db.group_root(gs[j]) == r by {
                lemma_root_is_outermost(db, gs, r, j);
            }
        }
        if outermost(db, gs, r) {
            lemma_outermost_is_root(db, gs, r);
        }
    }
    assert forall|i: int| 0 <= i < gs.len() && db.has_group(#[trigger] gs[i]) implies ({
        let at = attached_at(attached, gs[i]);
        &&& at is Some
        &&& outermost(db, gs, (at->0).0)
        &&& (at->0).0.is_prefix_of(db.group_root(gs[i]))
        &&& (at->0).1 == db.group_root(gs[i]).skip((at->0).0.len() as int)
    }) by {
        lemma_attached_where_covered(db, gs, i);
    }
}

/// The roots of a sequence of file groups depend on the file groups alone.
pub proof fn lemma_roots_depend_on_groups(a: Database, b: Database, gs: Seq<FileGroup>)
    requires
        a.file_groups == b.file_groups,
    ensures
        crate::fileset::roots_of(a, gs) == crate::fileset::roots_of(b, gs),
    decreases gs.len(),
{
    if gs.len() > 0 {
        lemma_roots_depend_on_groups(a, b, gs.drop_last());
    }
}

/// Pending, then resolved. While nothing is stored for the walk of the root
/// that covers a file group, the group's files are pending and ask for
/// exactly one task, that walk. Once the walk is resolved and what it found
/// is stored, with nothing else changed, the same query has its value: the
/// files among what the walk met that match the group's patterns under its
/// prefix, and it asks for nothing more.
pub proof fn lemma_pending_then_resolved(
    db: Database,
    after: Database,
    schema: Schema,
    group: FileGroup,
    root: Seq<Seq<char>>,
    prefix: Seq<Seq<char>>,
    met: Seq<DiscoveredView>,
)
    requires
        db.has_schema(schema),
        attached_at(db.schema_roots(schema).1, group) == Some((root, prefix)),
        request_compiles(root_request(db, schema, root)),
        db.stored(TaskView::Root(root_request(db, schema, root))) is None,
        after == (Database { resolved: after.resolved, ..db }),
        after.stored(TaskView::Root(root_request(db, schema, root))) == Some(
            Ok::<TaskValueView, CauseView>(
                TaskValueView::RootFiles(discovered(root_request(db, schema, root), met)),
            ),
        ),
    ensures
        file_group_files_outcome(db, schema, group) == Err::<Seq<FileView>, CauseView>(
            CauseView::Pending,
        ),
        file_group_files_tasks(db, schema, group) == seq![
            TaskView::Root(root_request(db, schema, root)),
        ],
        file_group_files_outcome(after, schema, group) == Ok::<Seq<FileView>, CauseView>(
            matched(
                GroupPatternsView { group, prefix, items: db.group_items(group) },
                root,
                met,
            ),
        ),
        file_group_files_tasks(after, schema, group) == Seq::<TaskView>::empty(),
{
    let gs = db.schema_groups(schema);
    let (roots, attached) = db.schema_roots(schema);
    lemma_roots_of(db, gs);
    let t = choose|t: Attachment| attached.contains(t) && t.1 == group;
    lemma_attached_at(roots, attached, t);
    assert(roots.contains(root));
    lemma_roots_depend_on_groups(after, db, gs);
    assert(after.schema_roots(schema) == db.schema_roots(schema));
    let request = root_request(db, schema, root);
    assert(root_request(after, schema, root).groups =~= request.groups);
    assert(root_request(after, schema, root) == request);
    let listed = groups_at(attached, gs, root);
    lemma_groups_at(attached, gs, root);
    assert(gs.contains(group));
    let k = choose|k: int| 0 <= k < gs.len() && gs[k] == group;
    assert(listed.contains((gs[k], prefix)));
    let found = discovered(request, met);
    lemma_first_where(found, is_group(group));
    let at = choose|i: int| 0 <= i < listed.len() && listed[i] == (group, prefix);
    assert(is_group(group)(found[at]));
    let first = first_where(found, is_group(group))->0;
    assert(found[first].0 == group);
    assert(listed[first].0 == group);
    assert(attached_at(attached, listed[first].0) == Some((root, listed[first].1)));
    assert(request.groups[first] == (GroupPatternsView {
        group,
        prefix,
        items: db.group_items(group),
    }));
}

/// Revisions invalidate. What is stored for a transform and one revision
/// of a file answers for no other revision: where the transform's
/// dependencies are resolved and nothing is stored for the transform and
/// the file at the revision asked for, the result is pending and the
/// application to that revision is asked for, whatever is stored for other
/// revisions of the file.
pub proof fn lemma_revision_invalidates(
    db: Database,
    schema: Schema,
    t: Transform,
    file: FileView,
    other: FileView,
    depth: nat,
    dependencies: crate::value::Json,
)
    requires
        other.path == file.path,
        other.revision != file.revision,
        transform_dependencies_eval(db, schema, t, depth).0 == Ok::<
            crate::value::Json,
            CauseView,
        >(dependencies),
        db.stored(apply_key(schema, t, file, dependencies)) is None,
    ensures
        apply_key(schema, t, other, dependencies) != apply_key(schema, t, file, dependencies),
        transform_result_eval(db, schema, t, file, depth).0 == Err::<FileView, CauseView>(
            CauseView::Pending,
        ),
        transform_result_eval(db, schema, t, file, depth).1 == transform_dependencies_eval(
            db,
            schema,
            t,
            depth,
        ).1 + seq![apply_key(schema, t, file, dependencies)],
{
}

/// Whether nothing is stored for any task of a sequence.
pub open spec fn unresolved(db: Database, tasks: Seq<TaskView>) -> bool {
    forall|i: int| 0 <= i < tasks.len() ==> db.stored(#[trigger] tasks[i]) is None
}

/// Two sequences of unresolved tasks make one.
pub proof fn lemma_unresolved_add(db: Database, a: Seq<TaskView>, b: Seq<TaskView>)
    requires
        unresolved(db, a),
        unresolved(db, b),
    ensures
        unresolved(db, a + b),
{
    assert forall|i: int| 0 <= i < (a + b).len() implies db.stored(#[trigger] (a + b)[i])
        is None by {
        if i < a.len() {
            assert((a + b)[i] == a[i]);
        } else {
            assert((a + b)[i] == b[i - a.len()]);
        }
    }
}

/// The files of an input ask for unresolved tasks only.
pub proof fn lemma_input_files_unresolved(db: Database, schema: Schema, input: Input, depth: nat)
    ensures
        unresolved(db, input_files_eval(db, schema, input, depth).1),
    decreases depth, 3nat, 0nat,
{
    match input {
        Input::FileGroup(g) => {},
        Input::Transform(t) => {
            if depth > 0 {
                lemma_transform_files_unresolved(db, schema, t, (depth - 1) as nat);
            }
        },
    }
}

/// Resolving a reference asks for unresolved tasks only.
pub proof fn lemma_dependency_unresolved(db: Database, schema: Schema, dep: Dependency, depth: nat)
    ensures
        unresolved(db, dependency_eval(db, schema, dep, depth).1),
    decreases depth, 3nat, 0nat,
{
    match dep {
        Dependency::Toolchain(b) => {},
        Dependency::FileGroup(g) => {},
        Dependency::Transform(t) => {
            if depth > 0 {
                lemma_transform_files_unresolved(db, schema, t, (depth - 1) as nat);
            }
        },
    }
}

/// Resolving references asks for unresolved tasks only.
pub proof fn lemma_dependencies_unresolved(
    db: Database,
    schema: Schema,
    deps: Seq<Dependency>,
    depth: nat,
)
    ensures
        unresolved(db, dependencies_fold(db, schema, deps, depth).2),
    decreases depth, 4nat, deps.len(),
{
    if deps.len() > 0 {
        lemma_dependencies_unresolved(db, schema, deps.drop_last(), depth);
        lemma_dependency_unresolved(db, schema, deps.last(), depth);
        lemma_unresolved_add(
            db,
            dependencies_fold(db, schema, deps.drop_last(), depth).2,
            dependency_eval(db, schema, deps.last(), depth).1,
        );
    }
}

/// The dependencies of a transform ask for unresolved tasks only.
pub proof fn lemma_transform_dependencies_unresolved(
    db: Database,
    schema: Schema,
    t: Transform,
    depth: nat,
)
    ensures
        unresolved(db, transform_dependencies_eval(db, schema, t, depth).1),
    decreases depth, 5nat, 0nat,
{
    if db.has_transform(t) {
        lemma_dependencies_unresolved(
            db,
            schema,
            crate::transform::unique_refs(db.transform_deps(t)),
            depth,
        );
    }
}

/// The result of a transform for a file asks for unresolved tasks only.
pub proof fn lemma_transform_result_unresolved(
    db: Database,
    schema: Schema,
    t: Transform,
    file: FileView,
    depth: nat,
)
    ensures
        unresolved(db, transform_result_eval(db, schema, t, file, depth).1),
    decreases depth, 6nat, 0nat,
{
    lemma_transform_dependencies_unresolved(db, schema, t, depth);
    let (d, tasks) = transform_dependencies_eval(db, schema, t, depth);
    match d {
        Err(c) => {},
        Ok(json) => {
            if db.stored(apply_key(schema, t, file, json)) is None {
                let one = seq![apply_key(schema, t, file, json)];
                assert(unresolved(db, one));
                lemma_unresolved_add(db, tasks, one);
            }
        },
    }
}

/// The results of a transform for files ask for unresolved tasks only.
pub proof fn lemma_results_unresolved(
    db: Database,
    schema: Schema,
    t: Transform,
    files: Seq<FileView>,
    depth: nat,
    g0: GatherView,
    out0: Seq<FileView>,
)
    ensures
        unresolved(db, results_fold(db, schema, t, files, depth, g0, out0).2),
    decreases depth, 7nat, files.len(),
{
    if files.len() > 0 {
        lemma_results_unresolved(db, schema, t, files.drop_last(), depth, g0, out0);
        lemma_transform_result_unresolved(db, schema, t, files.last(), depth);
        lemma_unresolved_add(
            db,
            results_fold(db, schema, t, files.drop_last(), depth, g0, out0).2,
            transform_result_eval(db, schema, t, files.last(), depth).1,
        );
    }
}

/// Applying a transform to inputs asks for unresolved tasks only.
pub proof fn lemma_inputs_unresolved(
    db: Database,
    schema: Schema,
    t: Transform,
    inputs: Seq<Input>,
    depth: nat,
)
    ensures
        unresolved(db, inputs_fold(db, schema, t, inputs, depth).2),
    decreases depth, 8nat, inputs.len(),
{
    if inputs.len() > 0 {
        lemma_inputs_unresolved(db, schema, t, inputs.drop_last(), depth);
        lemma_input_files_unresolved(db, schema, inputs.last(), depth);
        let (g, out, tasks) = inputs_fold(db, schema, t, inputs.drop_last(), depth);
        let (r, more) = input_files_eval(db, schema, inputs.last(), depth);
        lemma_unresolved_add(db, tasks, more);
        match r {
            Err(c) => {},
            Ok(files) => {
                lemma_results_unresolved(db, schema, t, files, depth, g, out);
                lemma_unresolved_add(
                    db,
                    tasks + more,
                    results_fold(db, schema, t, files, depth, g, out).2,
                );
            },
        }
    }
}

/// The files of a transform ask for unresolved tasks only.
pub proof fn lemma_transform_files_unresolved(
    db: Database,
    schema: Schema,
    t: Transform,
    depth: nat,
)
    ensures
        unresolved(db, transform_files_eval(db, schema, t, depth).1),
    decreases depth, 9nat, 0nat,
{
    if db.has_transform(t) {
        lemma_inputs_unresolved(
            db,
            schema,
            t,
            crate::transform::inputs_of(crate::transform::unique_refs(db.transform_input(t))),
            depth,
        );
    }
}

/// Gathering the files of items asks for unresolved tasks only.
pub proof fn lemma_items_unresolved(
    db: Database,
    schema: Schema,
    items: Seq<(Seq<Seq<char>>, Input)>,
)
    ensures
        unresolved(db, items_fold(db, schema, items).2),
    decreases items.len(),
{
    if items.len() > 0 {
        lemma_items_unresolved(db, schema, items.drop_last());
        lemma_input_files_unresolved(db, schema, items.last().1, db.transforms@.len());
        lemma_unresolved_add(
            db,
            items_fold(db, schema, items.drop_last()).2,
            input_files_eval(db, schema, items.last().1, db.transforms@.len()).1,
        );
    }
}

/// No work is asked for twice. Whatever the query and the database, every
/// task that the query asks for is one for which nothing is stored: once the
/// result of a task is written back, no evaluation asks for that work again.
pub proof fn lemma_no_work_twice(db: Database, q: Query)
    ensures
        unresolved(db, query_tasks(db, q)),
{
    match q {
        Query::FileGroupFiles(s, g) => {},
        Query::TransformFiles(s, t) => {
            lemma_transform_files_unresolved(db, s, t, db.transforms@.len());
        },
        Query::CollectionFiles(s, c) => {
            if db.has_collection(c) {
                lemma_items_unresolved(
                    db,
                    s,
                    crate::collection::items_view(db.collections@[c.id as int].items@),
                );
            }
        },
        Query::BundleFiles(s, b) => {
            if db.has_bundle(b) {
                lemma_items_unresolved(
                    db,
                    s,
                    crate::bundle::bundle_items_view(db.bundles@[b.id as int].items@),
                );
            }
        },
        Query::BinaryResolve(s, b) => {},
        Query::ToolchainResolve(t) => {},
    }
}

} // verus!
