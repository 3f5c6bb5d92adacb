//! What the scripting collaborator declares, and how it enters the database.
//!
//! A schema file declares things by handing over descriptions. Each function
//! here takes one description, adds what it describes to the database and,
//! for what a schema holds, registers it with the schema under construction.
//! It answers with the handle of what was added.

use vstd::prelude::*;
use vstd::string::*;
use crate::binary::{Binary, BinaryData, BinaryNative, BinaryRuntime};
use crate::bundle::{Bundle, BundleItem};
use crate::collection::{Collection, CollectionItem};
use crate::db::Database;
use crate::deps::{input_of, Dependency, Input};
use crate::fileset::{patterns_view, FileGroup, FileGroupItem, FileGroupStategy};
use crate::idset::dash_set_contents;
use crate::path::{joined, parsed, FsPath};
use crate::schema::SchemaBuilder;
use crate::server::{Server, ServerData};
use crate::service::{Service, ServiceData};
use crate::text::{lemma_texts_push, texts};
use crate::toolchain::{Toolchain, ToolchainData};
use crate::transform::{RunnerKind, Transform, TransformData};
use crate::value::Value;

verus! {

/// How the revision of a matched file is computed, as a script says it.
#[derive(Debug, Clone, Copy, PartialEq, Eq, Structural)]
pub enum JsFileGroupStategy {
    Hash,
    Time,
}

/// One item of a file group as a script declares it; the strategy may be
/// left out.
#[derive(Debug)]
pub struct JsFileGroupItem {
    pub strategy: Option<JsFileGroupStategy>,
    pub pattern: String,
}

/// One item of a file group as a script writes it: a pattern alone, or an
/// item in full.
#[derive(Debug)]
pub enum JsFileGroupItemShortcut {
    String(String),
    Item(JsFileGroupItem),
}

/// A file group as a script declares it: its name, the path of the module
/// that declares it, its root below the module's directory if it has one,
/// and its items.
#[derive(Debug)]
pub struct JsFileGroup {
    pub name: String,
    pub module: FsPath,
    pub root: Option<String>,
    pub items: Vec<JsFileGroupItemShortcut>,
}

/// A reference as a script writes it.
#[derive(Debug, Clone, Copy, PartialEq, Eq, Structural)]
pub enum JsDependency {
    FileGroup { id: usize },
    Transform { id: usize },
    Toolchain { id: usize },
}

/// A transform as a script declares it.
#[derive(Debug)]
pub struct JsTransform {
    pub name: String,
    pub module: FsPath,
    pub runner: u64,
    pub input: Value,
    pub dependencies: Value,
}

/// One item of a collection as a script declares it.
#[derive(Debug)]
pub struct JsCollectionItem {
    pub prefix: FsPath,
    pub content: JsDependency,
}

/// A collection as a script declares it.
#[derive(Debug)]
pub struct JsCollection {
    pub name: String,
    pub items: Vec<JsCollectionItem>,
}

/// One item of a bundle as a script declares it.
#[derive(Debug)]
pub struct JsBundleItem {
    pub prefix: FsPath,
    pub content: JsDependency,
}

/// A bundle as a script declares it.
#[derive(Debug)]
pub struct JsBundle {
    pub name: String,
    pub items: Vec<JsBundleItem>,
}

/// A native executable as a script declares it.
#[derive(Debug)]
pub struct JsBinaryNative {
    pub executable: String,
    pub env: Vec<(String, String)>,
    pub args: Vec<String>,
}

/// How a binary runs, as a script declares it.
#[derive(Debug)]
pub enum JsBinaryRuntime {
    Native(JsBinaryNative),
}

/// A binary as a script declares it.
#[derive(Debug)]
pub struct JsBinary {
    pub name: String,
    pub runtime: JsBinaryRuntime,
}

/// A service as a script declares it: its name and the number of its
/// binary.
#[derive(Debug)]
pub struct JsService {
    pub name: String,
    pub binary: usize,
}

/// A server as a script declares it.
#[derive(Debug)]
pub struct JsServer {
    pub name: String,
}

/// A toolchain as a script declares it.
#[derive(Debug)]
pub struct JsToolchain {
    pub name: String,
    pub binary: String,
    pub runner: String,
}

/// The reference that a script's reference stands for.
pub open spec fn mapped(dep: JsDependency) -> Dependency {
    match dep {
        JsDependency::FileGroup { id } => Dependency::FileGroup(FileGroup { id }),
        JsDependency::Transform { id } => Dependency::Transform(Transform { id }),
        JsDependency::Toolchain { id } => Dependency::Toolchain(Binary { id }),
    }
}

/// The reference that a script's reference stands for.
pub fn map_js_dep(dep: JsDependency) -> (r: Dependency)
    ensures
        r == mapped(dep),
{
    match dep {
        JsDependency::FileGroup { id } => Dependency::FileGroup(FileGroup { id }),
        JsDependency::Transform { id } => Dependency::Transform(Transform { id }),
        JsDependency::Toolchain { id } => Dependency::Toolchain(Binary { id }),
    }
}

/// Whether a file name has an extension: a dot after its first character,
/// unless the name is `..`.
pub open spec fn has_extension(name: Seq<char>) -> bool {
    &&& name != seq!['.', '.']
    &&& exists|i: int| 1 <= i < name.len() && name[i] == '.'
}

/// The directory of a module: the module's path without its last
/// component where that is a file name with an extension, else the path
/// itself.
pub open spec fn module_directory(module: Seq<Seq<char>>) -> Seq<Seq<char>> {
    if module.len() > 0 && has_extension(module.last()) {
        module.drop_last()
    } else {
        module
    }
}

/// The root directory of a file group that a module declares: the module's
/// directory, joined with the root that the group names if it names one.
pub open spec fn declared_root(module: Seq<Seq<char>>, root: Option<String>) -> Seq<Seq<char>> {
    match root {
        Some(r) => joined(module_directory(module), parsed(r@)),
        None => module_directory(module),
    }
}

/// An item as a script writes it, in full: a pattern alone, or an item
/// without a strategy, goes by modification time.
pub open spec fn declared_item(item: JsFileGroupItemShortcut) -> (Seq<char>, FileGroupStategy) {
    match item {
        JsFileGroupItemShortcut::String(s) => (s@, FileGroupStategy::Time),
        JsFileGroupItemShortcut::Item(i) => (
            i.pattern@,
            match i.strategy {
                Some(JsFileGroupStategy::Hash) => FileGroupStategy::Hash,
                _ => FileGroupStategy::Time,
            },
        ),
    }
}

/// The items that a script wrote, in full.
pub open spec fn declared_items(items: Seq<JsFileGroupItemShortcut>) -> Seq<
    (Seq<char>, FileGroupStategy),
> {
    Seq::new(items.len(), |i: int| declared_item(items[i]))
}

/// Whether a file name has an extension.
pub fn name_has_extension(name: &str) -> (r: bool)
    ensures
        r == has_extension(name@),
{
    let n = name.unicode_len();
    if n == 2 && name.get_char(0) == '.' && name.get_char(1) == '.' {
        assert(name@ =~= seq!['.', '.']);
        return false;
    }
    let mut i: usize = 1;
    while i < n
        invariant
            1 <= i,
            n == name@.len(),
            name@ != seq!['.', '.'],
            forall|j: int| 1 <= j < i ==> name@[j] != '.',
        decreases n - i,
    {
        if name.get_char(i) == '.' {
            return true;
        }
        i += 1;
    }
    false
}

/// The directory of a module.
pub fn directory_of(module: &FsPath) -> (r: FsPath)
    ensures
        r@ == module_directory(module@),
{
    let n = module.parts.len();
    if n > 0 && name_has_extension(module.parts[n - 1].as_str()) {
        let mut parts: Vec<String> = Vec::new();
        let mut i: usize = 0;
        assert(module@.last() == module.parts@[n - 1]@);
        while i < n - 1
            invariant
                n == module.parts.len(),
                n > 0,
                i <= n - 1,
                texts(parts@) == module@.take(i as int),
            decreases n - 1 - i,
        {
            proof {
                lemma_texts_push(parts@, module.parts@[i as int]);
            }
            parts.push(module.parts[i].clone());
            assert(texts(parts@) =~= module@.take(i + 1));
            i += 1;
        }
        assert(module@.take(n - 1) =~= module@.drop_last());
        FsPath { parts }
    } else {
        proof {
            if n > 0 {
                assert(module@.last() == module.parts@[n - 1]@);
            }
        }
        module.clone()
    }
}

/// Declares a file group: adds it to the database and registers it with the
/// schema under construction.
pub fn file_group(db: &mut Database, schema: &mut SchemaBuilder, f: JsFileGroup) -> (r: FileGroup)
    ensures
        r.id == old(db).file_groups@.len(),
        final(db).file_groups@.len() == old(db).file_groups@.len() + 1,
        forall|i: int|
            0 <= i < old(db).file_groups@.len() ==> final(db).file_groups@[i] == old(
                db,
            ).file_groups@[i],
        final(db).file_groups@[r.id as int].name@ == f.name@,
        final(db).group_root(r) == declared_root(f.module@, f.root),
        final(db).group_items(r) == declared_items(f.items@),
        *final(db) == (Database { file_groups: final(db).file_groups, ..*old(db) }),
        dash_set_contents(final(schema).file_groups) == dash_set_contents(
            old(schema).file_groups,
        ).insert(r.id),
        *final(schema) == (SchemaBuilder { file_groups: final(schema).file_groups, ..*old(schema) }),
{
    let directory = directory_of(&f.module);
    let root = match &f.root {
        Some(r) => directory.join(&FsPath::parse(r.as_str())),
        None => directory,
    };
    let mut items: Vec<FileGroupItem> = Vec::new();
    let mut i: usize = 0;
    while i < f.items.len()
        invariant
            i <= f.items.len(),
            items.len() == i,
            forall|j: int|
                0 <= j < i ==> (items[j].pattern@, items[j].strategy) == declared_item(f.items[j]),
        decreases f.items.len() - i,
    {
        let item = match &f.items[i] {
            JsFileGroupItemShortcut::String(s) => FileGroupItem {
                pattern: s.clone(),
                strategy: FileGroupStategy::Time,
            },
            JsFileGroupItemShortcut::Item(it) => FileGroupItem {
                strategy: match it.strategy {
                    Some(JsFileGroupStategy::Hash) => FileGroupStategy::Hash,
                    Some(JsFileGroupStategy::Time) => FileGroupStategy::Time,
                    None => FileGroupStategy::Time,
                },
                pattern: it.pattern.clone(),
            },
        };
        items.push(item);
        i += 1;
    }
    assert(patterns_view(items@) =~= declared_items(f.items@));
    let handle = FileGroup::new(db, f.name, root, items);
    schema.register_file_group(handle);
    handle
}

/// Declares a transform: adds it to the database and registers it with the
/// schema under construction.
pub fn transform(db: &mut Database, schema: &mut SchemaBuilder, f: JsTransform) -> (r: Transform)
    ensures
        r.id == old(db).transforms@.len(),
        final(db).transforms@ == old(db).transforms@.push(
            TransformData {
                name: f.name,
                runner: RunnerKind::JsFunction(f.runner),
                input: f.input,
                dependencies: f.dependencies,
            },
        ),
        *final(db) == (Database { transforms: final(db).transforms, ..*old(db) }),
        dash_set_contents(final(schema).transforms) == dash_set_contents(
            old(schema).transforms,
        ).insert(r.id),
        *final(schema) == (SchemaBuilder { transforms: final(schema).transforms, ..*old(schema) }),
{
    let handle = Transform::new(
        db,
        f.name,
        RunnerKind::JsFunction(f.runner),
        f.input,
        f.dependencies,
    );
    schema.register_transform(handle);
    handle
}

/// The items of a collection or a bundle, in order, where each names a file
/// group or a transform.
pub open spec fn declared_contents(items: Seq<(Seq<Seq<char>>, JsDependency)>) -> Option<
    Seq<(Seq<Seq<char>>, Input)>,
> {
    if forall|i: int| 0 <= i < items.len() ==> input_of(mapped((#[trigger] items[i]).1)) is Some {
        Some(Seq::new(items.len(), |i: int| (items[i].0, input_of(mapped(items[i].1))->0)))
    } else {
        None
    }
}

/// The items of a collection as a script wrote them.
pub open spec fn js_collection_items(v: Seq<JsCollectionItem>) -> Seq<
    (Seq<Seq<char>>, JsDependency),
> {
    Seq::new(v.len(), |i: int| (v[i].prefix@, v[i].content))
}

/// The items of a bundle as a script wrote them.
pub open spec fn js_bundle_items(v: Seq<JsBundleItem>) -> Seq<(Seq<Seq<char>>, JsDependency)> {
    Seq::new(v.len(), |i: int| (v[i].prefix@, v[i].content))
}

/// Declares a collection: adds it to the database and registers it with
/// the schema under construction. A collection takes files from file groups
/// and transforms only: where an item names a toolchain, nothing is added
/// and nothing registered.
pub fn collection(db: &mut Database, schema: &mut SchemaBuilder, c: JsCollection) -> (r: Option<
    Collection,
>)
    ensures
        r is Some <==> declared_contents(js_collection_items(c.items@)) is Some,
        r is None ==> *final(db) == *old(db) && *final(schema) == *old(schema),
        r matches Some(handle) ==> {
            &&& handle.id == old(db).collections@.len()
            &&& final(db).collections@.len() == old(db).collections@.len() + 1
            &&& forall|i: int|
                0 <= i < old(db).collections@.len() ==> final(db).collections@[i] == old(
                    db,
                ).collections@[i]
            &&& final(db).collections@[handle.id as int].name@ == c.name@
            &&& Some(crate::collection::items_view(final(db).collections@[handle.id as int].items@))
                == declared_contents(js_collection_items(c.items@))
            &&& *final(db) == (Database { collections: final(db).collections, ..*old(db) })
            &&& dash_set_contents(final(schema).collections) == dash_set_contents(
                old(schema).collections,
            ).insert(handle.id)
            &&& *final(schema) == (SchemaBuilder {
                collections: final(schema).collections,
                ..*old(schema)
            })
        },
{
    let ghost all = js_collection_items(c.items@);
    let mut items: Vec<CollectionItem> = Vec::new();
    let mut i: usize = 0;
    while i < c.items.len()
        invariant
            i <= c.items.len(),
            all == js_collection_items(c.items@),
            items.len() == i,
            forall|j: int| 0 <= j < i ==> input_of(mapped((#[trigger] all[j]).1)) is Some,
            forall|j: int|
                0 <= j < i ==> items[j].prefix@ == all[j].0 && Some(items[j].content) == input_of(
                    mapped(all[j].1),
                ),
        decreases c.items.len() - i,
    {
        match map_js_dep(c.items[i].content).to_input_kind() {
            Some(content) => {
                items.push(CollectionItem { prefix: c.items[i].prefix.clone(), content });
            },
            None => {
                assert(input_of(mapped(all[i as int].1)) is None);
                return None;
            },
        }
        i += 1;
    }
    assert(crate::collection::items_view(items@) =~= declared_contents(all)->0);
    let handle = Collection::new(db, c.name, items);
    schema.register_collection(handle);
    Some(handle)
}

/// Declares a bundle: adds it to the database. A bundle takes files from
/// file groups and transforms only: where an item names a toolchain, nothing
/// is added.
pub fn bundle(db: &mut Database, b: JsBundle) -> (r: Option<Bundle>)
    ensures
        r is Some <==> declared_contents(js_bundle_items(b.items@)) is Some,
        r is None ==> *final(db) == *old(db),
        r matches Some(handle) ==> {
            &&& handle.id == old(db).bundles@.len()
            &&& final(db).bundles@.len() == old(db).bundles@.len() + 1
            &&& forall|i: int|
                0 <= i < old(db).bundles@.len() ==> final(db).bundles@[i] == old(db).bundles@[i]
            &&& final(db).bundles@[handle.id as int].name@ == b.name@
            &&& Some(crate::bundle::bundle_items_view(final(db).bundles@[handle.id as int].items@))
                == declared_contents(js_bundle_items(b.items@))
            &&& *final(db) == (Database { bundles: final(db).bundles, ..*old(db) })
        },
{
    let ghost all = js_bundle_items(b.items@);
    let mut items: Vec<BundleItem> = Vec::new();
    let mut i: usize = 0;
    while i < b.items.len()
        invariant
            i <= b.items.len(),
            all == js_bundle_items(b.items@),
            items.len() == i,
            forall|j: int| 0 <= j < i ==> input_of(mapped((#[trigger] all[j]).1)) is Some,
            forall|j: int|
                0 <= j < i ==> items[j].prefix@ == all[j].0 && Some(items[j].content) == input_of(
                    mapped(all[j].1),
                ),
        decreases b.items.len() - i,
    {
        match map_js_dep(b.items[i].content).to_input_kind() {
            Some(content) => {
                items.push(BundleItem { prefix: b.items[i].prefix.clone(), content });
            },
            None => {
                assert(input_of(mapped(all[i as int].1)) is None);
                return None;
            },
        }
        i += 1;
    }
    assert(crate::bundle::bundle_items_view(items@) =~= declared_contents(all)->0);
    Some(Bundle::new(db, b.name, items))
}

/// Declares a binary: adds it to the database.
pub fn binary(db: &mut Database, b: JsBinary) -> (r: Binary)
    ensures
        r.id == old(db).binaries@.len(),
        final(db).binaries@ == old(db).binaries@.push(
            BinaryData {
                name: b.name,
                runtime: BinaryRuntime::Native(
                    BinaryNative {
                        executable: b.runtime->Native_0.executable,
                        env: b.runtime->Native_0.env,
                        args: b.runtime->Native_0.args,
                    },
                ),
            },
        ),
        *final(db) == (Database { binaries: final(db).binaries, ..*old(db) }),
{
    let runtime = match b.runtime {
        JsBinaryRuntime::Native(n) => BinaryRuntime::Native(
            BinaryNative { executable: n.executable, env: n.env, args: n.args },
        ),
    };
    Binary::new(db, b.name, runtime)
}

/// Declares a service: adds it to the database and registers it with the
/// schema under construction.
pub fn service(db: &mut Database, schema: &mut SchemaBuilder, s: JsService) -> (r: Service)
    ensures
        r.id == old(db).services@.len(),
        final(db).services@ == old(db).services@.push(
            ServiceData { name: s.name, binary: Binary { id: s.binary } },
        ),
        *final(db) == (Database { services: final(db).services, ..*old(db) }),
        dash_set_contents(final(schema).services) == dash_set_contents(
            old(schema).services,
        ).insert(r.id),
        *final(schema) == (SchemaBuilder { services: final(schema).services, ..*old(schema) }),
{
    let handle = Service::new(db, s.name, Binary { id: s.binary });
    schema.register_service(handle);
    handle
}

/// Declares a server: adds it to the database and registers it with the
/// schema under construction.
pub fn server(db: &mut Database, schema: &mut SchemaBuilder, s: JsServer) -> (r: Server)
    ensures
        r.id == old(db).servers@.len(),
        final(db).servers@ == old(db).servers@.push(ServerData { name: s.name }),
        *final(db) == (Database { servers: final(db).servers, ..*old(db) }),
        dash_set_contents(final(schema).servers) == dash_set_contents(old(schema).servers).insert(
            r.id,
        ),
        *final(schema) == (SchemaBuilder { servers: final(schema).servers, ..*old(schema) }),
{
    let handle = Server::new(db, s.name);
    schema.register_server(handle);
    handle
}

/// Declares a toolchain: adds it to the database.
pub fn toolchain(db: &mut Database, f: JsToolchain) -> (r: Toolchain)
    ensures
        r.id == old(db).toolchains@.len(),
        final(db).toolchains@ == old(db).toolchains@.push(
            ToolchainData { name: f.name, binary: f.binary, runner: f.runner },
        ),
        *final(db) == (Database { toolchains: final(db).toolchains, ..*old(db) }),
{
    Toolchain::new(db, f.name, f.binary, f.runner)
}

} // verus!
