//! Snapshots: copies of the database that answer as the database did when
//! they were taken, whatever is written to the database afterwards.

use vstd::prelude::*;
use crate::addresses::{dash_map_contents, dash_map_new};
use crate::binary::BinaryData;
use crate::bundle::{bundle_items_view, BundleData, BundleItem};
use crate::collection::{base_of, items_fold, items_view, CollectionData};
use crate::db::{stored, stored_view, Database, Resolution};
use crate::deps::{Dependency, Input};
use crate::drive::{query_outcome, query_tasks, Query};
use crate::fileset::{
    clone_items,
    file_group_files_outcome,
    file_group_files_tasks,
    file_group_root_outcome,
    groups_at,
    patterns_view,
    root_files_outcome,
    root_files_tasks,
    root_request,
    roots_of,
    FileGroup,
    FileGroupData,
    FileView,
};
use crate::gather::GatherView;
use crate::schema::{Schema, SchemaData};
use crate::task::TaskView;
use crate::transform::{
    dependencies_fold,
    dependency_eval,
    input_files_eval,
    inputs_fold,
    results_fold,
    transform_dependencies_eval,
    transform_files_eval,
    transform_result_eval,
    Transform,
};
use crate::server::ServerData;
use crate::service::ServiceData;
use crate::toolchain::ToolchainData;
use crate::transform::TransformData;

verus! {

/// Whether two records of a file group say the same.
pub open spec fn same_group(a: FileGroupData, b: FileGroupData) -> bool {
    a.name@ == b.name@ && a.root@ == b.root@ && patterns_view(a.items@) == patterns_view(b.items@)
}

/// Whether two records of a transform say the same.
pub open spec fn same_transform(a: TransformData, b: TransformData) -> bool {
    a.name@ == b.name@ && a.runner == b.runner && a.input@ == b.input@ && a.dependencies@
        == b.dependencies@
}

/// Whether two records of a collection say the same.
pub open spec fn same_collection(a: CollectionData, b: CollectionData) -> bool {
    a.name@ == b.name@ && items_view(a.items@) == items_view(b.items@)
}

/// Whether two records of a bundle say the same.
pub open spec fn same_bundle(a: BundleData, b: BundleData) -> bool {
    a.name@ == b.name@ && bundle_items_view(a.items@) == bundle_items_view(b.items@)
}

/// Whether two records of a binary say the same.
pub open spec fn same_binary(a: BinaryData, b: BinaryData) -> bool {
    a.name@ == b.name@ && a.runtime@ == b.runtime@
}

/// Whether two records of a toolchain say the same.
pub open spec fn same_toolchain(a: ToolchainData, b: ToolchainData) -> bool {
    a.name@ == b.name@ && a.binary@ == b.binary@ && a.runner@ == b.runner@
}

/// Whether two records of a service say the same.
pub open spec fn same_service(a: ServiceData, b: ServiceData) -> bool {
    a.name@ == b.name@ && a.binary == b.binary
}

/// Whether two records of a server say the same.
pub open spec fn same_server(a: ServerData, b: ServerData) -> bool {
    a.name@ == b.name@
}

/// Whether two records of a schema say the same.
pub open spec fn same_schema(a: SchemaData, b: SchemaData) -> bool {
    &&& a.url@ == b.url@
    &&& a.file_groups@ == b.file_groups@
    &&& a.transforms@ == b.transforms@
    &&& a.collections@ == b.collections@
    &&& a.servers@ == b.servers@
    &&& a.services@ == b.services@
    &&& a.binaries@ == b.binaries@
}

/// Whether two stored results are for the same task and say the same.
pub open spec fn same_resolution(a: Resolution, b: Resolution) -> bool {
    a.key@ == b.key@ && stored_view(a.outcome) == stored_view(b.outcome)
}

/// Whether two databases are in the same state: they hold the same
/// declarations under the same handles, and the same results for the same
/// tasks. The addresses that schemas were loaded from do not count.
pub open spec fn same_state(a: Database, b: Database) -> bool {
    &&& a.file_groups@.len() == b.file_groups@.len()
    &&& forall|i: int|
        0 <= i < a.file_groups@.len() ==> same_group(
            #[trigger] a.file_groups@[i],
            b.file_groups@[i],
        )
    &&& a.transforms@.len() == b.transforms@.len()
    &&& forall|i: int|
        0 <= i < a.transforms@.len() ==> same_transform(
            #[trigger] a.transforms@[i],
            b.transforms@[i],
        )
    &&& a.collections@.len() == b.collections@.len()
    &&& forall|i: int|
        0 <= i < a.collections@.len() ==> same_collection(
            #[trigger] a.collections@[i],
            b.collections@[i],
        )
    &&& a.bundles@.len() == b.bundles@.len()
    &&& forall|i: int|
        0 <= i < a.bundles@.len() ==> same_bundle(#[trigger] a.bundles@[i], b.bundles@[i])
    &&& a.binaries@.len() == b.binaries@.len()
    &&& forall|i: int|
        0 <= i < a.binaries@.len() ==> same_binary(#[trigger] a.binaries@[i], b.binaries@[i])
    &&& a.toolchains@.len() == b.toolchains@.len()
    &&& forall|i: int|
        0 <= i < a.toolchains@.len() ==> same_toolchain(
            #[trigger] a.toolchains@[i],
            b.toolchains@[i],
        )
    &&& a.services@.len() == b.services@.len()
    &&& forall|i: int|
        0 <= i < a.services@.len() ==> same_service(#[trigger] a.services@[i], b.services@[i])
    &&& a.servers@.len() == b.servers@.len()
    &&& forall|i: int|
        0 <= i < a.servers@.len() ==> same_server(#[trigger] a.servers@[i], b.servers@[i])
    &&& a.schemas@.len() == b.schemas@.len()
    &&& forall|i: int|
        0 <= i < a.schemas@.len() ==> same_schema(#[trigger] a.schemas@[i], b.schemas@[i])
    &&& a.resolved@.len() == b.resolved@.len()
    &&& forall|i: int|
        0 <= i < a.resolved@.len() ==> same_resolution(#[trigger] a.resolved@[i], b.resolved@[i])
}

impl Clone for FileGroupData {
    fn clone(&self) -> (r: Self)
        ensures
            same_group(*self, r),
    {
        FileGroupData {
            name: self.name.clone(),
            root: self.root.clone(),
            items: clone_items(&self.items),
        }
    }
}

impl Clone for TransformData {
    fn clone(&self) -> (r: Self)
        ensures
            same_transform(*self, r),
    {
        TransformData {
            name: self.name.clone(),
            runner: self.runner,
            input: self.input.clone(),
            dependencies: self.dependencies.clone(),
        }
    }
}

impl Clone for CollectionData {
    fn clone(&self) -> (r: Self)
        ensures
            same_collection(*self, r),
    {
        let items = self.items.clone();
        assert(items_view(items@) =~= items_view(self.items@));
        CollectionData { name: self.name.clone(), items }
    }
}

impl Clone for BundleItem {
    fn clone(&self) -> (r: Self)
        ensures
            r.prefix@ == self.prefix@,
            r.content == self.content,
    {
        BundleItem { prefix: self.prefix.clone(), content: self.content }
    }
}

impl Clone for BundleData {
    fn clone(&self) -> (r: Self)
        ensures
            same_bundle(*self, r),
    {
        let items = self.items.clone();
        assert(bundle_items_view(items@) =~= bundle_items_view(self.items@));
        BundleData { name: self.name.clone(), items }
    }
}

impl Clone for BinaryData {
    fn clone(&self) -> (r: Self)
        ensures
            same_binary(*self, r),
    {
        BinaryData { name: self.name.clone(), runtime: self.runtime.clone() }
    }
}

impl Clone for ToolchainData {
    fn clone(&self) -> (r: Self)
        ensures
            same_toolchain(*self, r),
    {
        ToolchainData {
            name: self.name.clone(),
            binary: self.binary.clone(),
            runner: self.runner.clone(),
        }
    }
}

impl Clone for ServiceData {
    fn clone(&self) -> (r: Self)
        ensures
            same_service(*self, r),
    {
        ServiceData { name: self.name.clone(), binary: self.binary }
    }
}

impl Clone for ServerData {
    fn clone(&self) -> (r: Self)
        ensures
            same_server(*self, r),
    {
        ServerData { name: self.name.clone() }
    }
}

impl Clone for SchemaData {
    fn clone(&self) -> (r: Self)
        ensures
            same_schema(*self, r),
    {
        let file_groups = self.file_groups.clone();
        let transforms = self.transforms.clone();
        let collections = self.collections.clone();
        let servers = self.servers.clone();
        let services = self.services.clone();
        let binaries = self.binaries.clone();
        assert(file_groups@ =~= self.file_groups@);
        assert(transforms@ =~= self.transforms@);
        assert(collections@ =~= self.collections@);
        assert(servers@ =~= self.servers@);
        assert(services@ =~= self.services@);
        assert(binaries@ =~= self.binaries@);
        SchemaData {
            url: self.url.clone(),
            file_groups,
            transforms,
            collections,
            servers,
            services,
            binaries,
        }
    }
}

impl Clone for Resolution {
    fn clone(&self) -> (r: Self)
        ensures
            same_resolution(*self, r),
    {
        Resolution {
            key: self.key.clone(),
            outcome: match &self.outcome {
                Ok(v) => Ok(v.clone()),
                Err(c) => Err(c.clone()),
            },
        }
    }
}

impl Database {
    /// A snapshot: a database of its own in the state that this one is in.
    /// What is written to either afterwards does not show in the other. A
    /// snapshot knows no schema by its address.
    pub fn snapshot(&self) -> (r: Database)
        ensures
            same_state(*self, r),
            dash_map_contents(r.known) == Map::<Seq<char>, usize>::empty(),
    {
        Database {
            file_groups: self.file_groups.clone(),
            transforms: self.transforms.clone(),
            collections: self.collections.clone(),
            bundles: self.bundles.clone(),
            binaries: self.binaries.clone(),
            toolchains: self.toolchains.clone(),
            services: self.services.clone(),
            servers: self.servers.clone(),
            schemas: self.schemas.clone(),
            resolved: self.resolved.clone(),
            known: dash_map_new(),
        }
    }
}

/// The same results are stored under a key in lists that hold the same
/// results for the same tasks.
pub proof fn lemma_same_stored(a: Seq<Resolution>, b: Seq<Resolution>, key: TaskView)
    requires
        a.len() == b.len(),
        forall|i: int| 0 <= i < a.len() ==> same_resolution(#[trigger] a[i], b[i]),
    ensures
        stored(a, key) == stored(b, key),
    decreases a.len(),
{
    if a.len() > 0 {
        assert(same_resolution(a[0], b[0]));
        assert forall|i: int| 0 <= i < a.skip(1).len() implies same_resolution(
            #[trigger] a.skip(1)[i],
            b.skip(1)[i],
        ) by {
            assert(same_resolution(a[i + 1], b[i + 1]));
        }
        lemma_same_stored(a.skip(1), b.skip(1), key);
    }
}

/// Databases in the same state store the same under every key.
pub proof fn lemma_same_state_stored(a: Database, b: Database)
    requires
        same_state(a, b),
    ensures
        forall|k: TaskView| #[trigger] a.stored(k) == b.stored(k),
{
    assert forall|k: TaskView| #[trigger] a.stored(k) == b.stored(k) by {
        lemma_same_stored(a.resolved@, b.resolved@, k);
    }
}

/// Databases in the same state have the same roots for the same file
/// groups.
pub proof fn lemma_same_roots(a: Database, b: Database, gs: Seq<FileGroup>)
    requires
        same_state(a, b),
    ensures
        roots_of(a, gs) == roots_of(b, gs),
    decreases gs.len(),
{
    if gs.len() > 0 {
        lemma_same_roots(a, b, gs.drop_last());
        let g = gs.last();
        if a.has_group(g) {
            assert(same_group(a.file_groups@[g.id as int], b.file_groups@[g.id as int]));
        }
    }
}

/// Databases in the same state find the same under the roots of a schema.
pub proof fn lemma_same_root_files(a: Database, b: Database, schema: Schema, root: Seq<Seq<char>>)
    requires
        same_state(a, b),
    ensures
        root_files_outcome(a, schema, root) == root_files_outcome(b, schema, root),
        root_files_tasks(a, schema, root) == root_files_tasks(b, schema, root),
        a.schema_roots(schema) == b.schema_roots(schema),
{
    lemma_same_state_stored(a, b);
    if a.has_schema(schema) {
        assert(same_schema(a.schemas@[schema.id as int], b.schemas@[schema.id as int]));
        let gs = a.schema_groups(schema);
        lemma_same_roots(a, b, gs);
        crate::fileset::lemma_roots_of(a, gs);
        let listed = groups_at(a.schema_roots(schema).1, gs, root);
        assert forall|i: int| 0 <= i < listed.len() implies a.group_items(listed[i].0)
            == b.group_items(listed[i].0) by {
            crate::fileset::lemma_groups_at_valid(a, a.schema_roots(schema).1, gs, root, i);
            assert(same_group(
                a.file_groups@[listed[i].0.id as int],
                b.file_groups@[listed[i].0.id as int],
            ));
        }
        assert(root_request(a, schema, root).groups =~= root_request(b, schema, root).groups);
    }
}

/// Databases in the same state hold the same files for a file group.
pub proof fn lemma_same_group_files(a: Database, b: Database, schema: Schema, group: FileGroup)
    requires
        same_state(a, b),
    ensures
        file_group_files_outcome(a, schema, group) == file_group_files_outcome(b, schema, group),
        file_group_files_tasks(a, schema, group) == file_group_files_tasks(b, schema, group),
{
    lemma_same_root_files(a, b, schema, Seq::empty());
    match file_group_root_outcome(a, schema, group) {
        Ok(root) => {
            lemma_same_root_files(a, b, schema, root);
        },
        Err(c) => {},
    }
}

/// Databases in the same state hold the same files for an input.
pub proof fn lemma_same_input_files(
    a: Database,
    b: Database,
    schema: Schema,
    input: Input,
    depth: nat,
)
    requires
        same_state(a, b),
    ensures
        input_files_eval(a, schema, input, depth) == input_files_eval(b, schema, input, depth),
    decreases depth, 3nat, 0nat,
{
    match input {
        Input::FileGroup(g) => {
            lemma_same_group_files(a, b, schema, g);
        },
        Input::Transform(t) => {
            if depth > 0 {
                lemma_same_transform_files(a, b, schema, t, (depth - 1) as nat);
            }
        },
    }
}

/// Databases in the same state resolve a reference to the same.
pub proof fn lemma_same_dependency(
    a: Database,
    b: Database,
    schema: Schema,
    dep: Dependency,
    depth: nat,
)
    requires
        same_state(a, b),
    ensures
        dependency_eval(a, schema, dep, depth) == dependency_eval(b, schema, dep, depth),
    decreases depth, 3nat, 0nat,
{
    lemma_same_state_stored(a, b);
    match dep {
        Dependency::Toolchain(x) => {},
        Dependency::FileGroup(g) => {
            lemma_same_group_files(a, b, schema, g);
        },
        Dependency::Transform(t) => {
            if depth > 0 {
                lemma_same_transform_files(a, b, schema, t, (depth - 1) as nat);
            }
        },
    }
}

/// Databases in the same state resolve references to the same.
pub proof fn lemma_same_dependencies(
    a: Database,
    b: Database,
    schema: Schema,
    deps: Seq<Dependency>,
    depth: nat,
)
    requires
        same_state(a, b),
    ensures
        dependencies_fold(a, schema, deps, depth) == dependencies_fold(b, schema, deps, depth),
    decreases depth, 4nat, deps.len(),
{
    if deps.len() > 0 {
        lemma_same_dependencies(a, b, schema, deps.drop_last(), depth);
        lemma_same_dependency(a, b, schema, deps.last(), depth);
    }
}

/// Databases in the same state resolve the dependencies of a transform to
/// the same.
pub proof fn lemma_same_transform_dependencies(
    a: Database,
    b: Database,
    schema: Schema,
    t: Transform,
    depth: nat,
)
    requires
        same_state(a, b),
    ensures
        transform_dependencies_eval(a, schema, t, depth) == transform_dependencies_eval(
            b,
            schema,
            t,
            depth,
        ),
    decreases depth, 5nat, 0nat,
{
    if a.has_transform(t) {
        assert(same_transform(a.transforms@[t.id as int], b.transforms@[t.id as int]));
        lemma_same_dependencies(
            a,
            b,
            schema,
            crate::transform::unique_refs(a.transform_deps(t)),
            depth,
        );
    }
}

/// Databases in the same state hold the same result of a transform for a
/// file.
pub proof fn lemma_same_transform_result(
    a: Database,
    b: Database,
    schema: Schema,
    t: Transform,
    file: FileView,
    depth: nat,
)
    requires
        same_state(a, b),
    ensures
        transform_result_eval(a, schema, t, file, depth) == transform_result_eval(
            b,
            schema,
            t,
            file,
            depth,
        ),
    decreases depth, 6nat, 0nat,
{
    lemma_same_state_stored(a, b);
    lemma_same_transform_dependencies(a, b, schema, t, depth);
}

/// Databases in the same state hold the same results of a transform for
/// files.
pub proof fn lemma_same_results(
    a: Database,
    b: Database,
    schema: Schema,
    t: Transform,
    files: Seq<FileView>,
    depth: nat,
    g0: GatherView,
    out0: Seq<FileView>,
)
    requires
        same_state(a, b),
    ensures
        results_fold(a, schema, t, files, depth, g0, out0) == results_fold(
            b,
            schema,
            t,
            files,
            depth,
            g0,
            out0,
        ),
    decreases depth, 7nat, files.len(),
{
    if files.len() > 0 {
        lemma_same_results(a, b, schema, t, files.drop_last(), depth, g0, out0);
        lemma_same_transform_result(a, b, schema, t, files.last(), depth);
    }
}

/// Databases in the same state apply a transform to inputs with the same
/// outcome.
pub proof fn lemma_same_inputs(
    a: Database,
    b: Database,
    schema: Schema,
    t: Transform,
    inputs: Seq<Input>,
    depth: nat,
)
    requires
        same_state(a, b),
    ensures
        inputs_fold(a, schema, t, inputs, depth) == inputs_fold(b, schema, t, inputs, depth),
    decreases depth, 8nat, inputs.len(),
{
    if inputs.len() > 0 {
        lemma_same_inputs(a, b, schema, t, inputs.drop_last(), depth);
        lemma_same_input_files(a, b, schema, inputs.last(), depth);
        let (g, out, tasks) = inputs_fold(a, schema, t, inputs.drop_last(), depth);
        match input_files_eval(a, schema, inputs.last(), depth).0 {
            Ok(files) => {
                lemma_same_results(a, b, schema, t, files, depth, g, out);
            },
            Err(c) => {},
        }
    }
}

/// Databases in the same state hold the same files for a transform.
pub proof fn lemma_same_transform_files(
    a: Database,
    b: Database,
    schema: Schema,
    t: Transform,
    depth: nat,
)
    requires
        same_state(a, b),
    ensures
        transform_files_eval(a, schema, t, depth) == transform_files_eval(b, schema, t, depth),
    decreases depth, 9nat, 0nat,
{
    if a.has_transform(t) {
        assert(same_transform(a.transforms@[t.id as int], b.transforms@[t.id as int]));
        lemma_same_inputs(
            a,
            b,
            schema,
            t,
            crate::transform::inputs_of(crate::transform::unique_refs(a.transform_input(t))),
            depth,
        );
    }
}

/// Databases in the same state gather the same files for items.
pub proof fn lemma_same_items(
    a: Database,
    b: Database,
    schema: Schema,
    items: Seq<(Seq<Seq<char>>, Input)>,
)
    requires
        same_state(a, b),
    ensures
        items_fold(a, schema, items) == items_fold(b, schema, items),
    decreases items.len(),
{
    if items.len() > 0 {
        lemma_same_items(a, b, schema, items.drop_last());
        lemma_same_input_files(a, b, schema, items.last().1, a.transforms@.len());
        match items.last().1 {
            Input::FileGroup(g) => {
                if a.has_group(g) {
                    assert(same_group(a.file_groups@[g.id as int], b.file_groups@[g.id as int]));
                }
            },
            Input::Transform(t) => {},
        }
        assert(base_of(a, items.last().1) == base_of(b, items.last().1));
    }
}

/// A snapshot answers as the database did. Two databases in the same
/// state, as a database and the snapshot taken of it are, come to the same
/// outcome for every query and ask for the same tasks.
pub proof fn lemma_same_state_answers(a: Database, b: Database, q: Query)
    requires
        same_state(a, b),
    ensures
        query_outcome(a, q) == query_outcome(b, q),
        query_tasks(a, q) == query_tasks(b, q),
{
    lemma_same_state_stored(a, b);
    match q {
        Query::FileGroupFiles(s, g) => {
            lemma_same_group_files(a, b, s, g);
        },
        Query::TransformFiles(s, t) => {
            lemma_same_transform_files(a, b, s, t, a.transforms@.len());
        },
        Query::CollectionFiles(s, c) => {
            if a.has_collection(c) {
                assert(same_collection(a.collections@[c.id as int], b.collections@[c.id as int]));
                lemma_same_items(a, b, s, items_view(a.collections@[c.id as int].items@));
            }
        },
        Query::BundleFiles(s, x) => {
            if a.has_bundle(x) {
                assert(same_bundle(a.bundles@[x.id as int], b.bundles@[x.id as int]));
                lemma_same_items(a, b, s, bundle_items_view(a.bundles@[x.id as int].items@));
            }
        },
        Query::BinaryResolve(s, x) => {},
        Query::ToolchainResolve(t) => {},
    }
}

} // verus!
