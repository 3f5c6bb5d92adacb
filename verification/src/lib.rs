//! Kabina: an incremental build engine.
//!
//! A schema declares file groups, transforms, collections, binaries and
//! services. Queries over the [`Database`] derive artifacts from them. A query
//! never blocks: where it needs a value that only the outside world can give
//! (a directory walk, an executable lookup, a transform run) it records a
//! [`RuntimeTask`] and answers [`Cause::Pending`]. The drive loop performs the
//! tasks, writes what they produced back, and asks again.
//!
//! A query is a function of the database alone. What the outside world
//! produced is stored under the key of the task that asked for it, so work
//! that was done is never asked for again, and a changed input (another
//! revision of a file, other patterns, another root) asks for new work
//! because it makes another key.
//!
//! The modules, leaves first:
//!
//! - [`text`], [`order`], [`path`], [`value`], [`assoc`]: strings, the order
//!   of sequences, paths as components, structured values, finding in lists;
//! - [`deps`], [`deps_laws`]: references in structured values, their
//!   extraction and substitution;
//! - [`glob`], [`matcher`], [`idset`], [`addresses`]: the parts that rest on
//!   outside crates;
//! - [`db`], [`task`], [`schema`], [`script`]: the database, the keys of
//!   tasks, schemas and how declarations enter;
//! - [`roots`], [`fileset`]: root coalescing and file discovery;
//! - [`binary`], [`toolchain`], [`transform`], [`collection`], [`bundle`],
//!   [`gather`]: the queries;
//! - [`drive`], [`process`], [`service`], [`server`], [`snapshot`]: the
//!   drive loop step by step, and what surrounds it;
//! - [`laws`]: what holds of the queries whatever the database.

pub mod addresses;
pub mod assoc;
pub mod binary;
pub mod bundle;
pub mod collection;
pub mod db;
pub mod deps;
pub mod deps_laws;
pub mod drive;
pub mod error;
pub mod fileset;
pub mod gather;
pub mod glob;
pub mod idset;
pub mod laws;
pub mod matcher;
pub mod order;
pub mod path;
pub mod process;
pub mod roots;
pub mod schema;
pub mod script;
pub mod server;
pub mod service;
pub mod snapshot;
pub mod task;
pub mod text;
pub mod toolchain;
pub mod transform;
pub mod value;

pub use binary::{
    binary_resolve, Binary, BinaryData, BinaryNative, BinaryResolve, BinaryRuntime,
    BinaryRuntimeResolved,
};
pub use bundle::{bundle_files, Bundle, BundleData, BundleItem};
pub use collection::{collection_files, Collection, CollectionData, CollectionItem};
pub use db::{Database, Db, Project, Resolution};
pub use deps::{
    extract_dependencies, extract_dependencies_from_object, replace_dependencies,
    replace_dependencies_in_object, try_replace_dependencies, Dependency, Input, Resolutions, ResolvedDependency,
};
pub use drive::{drive_round, drive_step, drive_task, evaluate, Answer, Query, Step, TaskEvent};
pub use error::{Cause, ErrorKind, Outcome, ResolutionError};
pub use fileset::{
    content_digest, file_group_files, file_group_matcher, file_group_resolved_paths, file_group_root,
    root_file_groups, root_files, roots, DiscoveredFile, Executable, File, FileGroup,
    FileGroupData, FileGroupItem, FileGroupStategy, Job, ResolveRootFiles, RuntimeTask,
};
pub use matcher::GroupMatcher;
pub use path::FsPath;
pub use process::{Process, ProcessConfig, ProcessMananger};
pub use roots::{RootEntry, SchemaRoots};
pub use schema::{Schema, SchemaBuilder, SchemaData};
pub use script::{
    map_js_dep, JsBinary, JsBinaryNative, JsBinaryRuntime, JsBundle, JsBundleItem, JsCollection,
    JsCollectionItem, JsDependency, JsFileGroup, JsFileGroupItem, JsFileGroupItemShortcut,
    JsFileGroupStategy, JsServer, JsService, JsToolchain, JsTransform,
};
pub use server::{Server, ServerData};
pub use service::{schema_services, Service, ServiceData};
pub use task::{GroupPatterns, RootRequest, TaskKey, TaskValue};
pub use toolchain::{
    toolchain_resolve, Toolchain, ToolchainData, ToolchainObject, ToolchainResolve,
};
pub use transform::{
    transform_dependencies, transform_files, transform_inputs, transform_result_for_file,
    RunnerKind, Transform, TransformApply, TransformData,
};
pub use value::{Number, Value};
