use kabina::{
    binary_resolve, bundle_files, collection_files, drive_round, drive_step, drive_task,
    toolchain_resolve, transform_dependencies, transform_files, transform_inputs,
    transform_result_for_file, Answer, Binary, BinaryNative, BinaryResolve, BinaryRuntime,
    BinaryRuntimeResolved, Bundle, BundleItem, Cause, Collection, CollectionItem, Database,
    DiscoveredFile, ErrorKind, Executable, File, FileGroup, FileGroupItem, FileGroupStategy,
    FsPath, Input, Job, Number, Query, ResolutionError, ResolvedDependency, RunnerKind,
    RuntimeTask, Schema, SchemaBuilder, Step, TaskEvent, TaskKey, TaskValue, Toolchain,
    ToolchainObject, Transform, Value,
};

fn text(s: &str) -> Value {
    Value::String(String::from(s))
}

fn object(fields: Vec<(&str, Value)>) -> Value {
    Value::Object(fields.into_iter().map(|(k, v)| (String::from(k), v)).collect())
}

fn reference(kind: &str, id: usize) -> Value {
    object(vec![("kind", text(kind)), ("id", Value::Number(Number::PosInt(id as u64)))])
}

fn group(db: &mut Database, root: &str, pattern: &str) -> FileGroup {
    let items = vec![FileGroupItem { strategy: FileGroupStategy::Time, pattern: String::from(pattern) }];
    FileGroup::new(db, String::from("group"), FsPath::parse(root), items)
}

fn schema_of(db: &mut Database, groups: &[FileGroup]) -> Schema {
    let mut builder = SchemaBuilder::new();
    for g in groups {
        builder.register_file_group(*g);
    }
    Schema::new(db, String::from("file:///proj/schema.ts"), builder)
}

fn met(path: &str, modified: u64) -> DiscoveredFile {
    DiscoveredFile { path: FsPath::parse(path), modified, digest: 0 }
}

fn file(path: &str, revision: u64) -> File {
    File { path: FsPath::parse(path), revision }
}

fn placed(at: &str, path: &str, revision: u64) -> (FsPath, File) {
    (FsPath::parse(at), file(path, revision))
}

fn error(kind: ErrorKind) -> Cause {
    Cause::error(kind)
}

fn walk(db: &mut Database, tasks: &[RuntimeTask], found: Vec<DiscoveredFile>) {
    for task in tasks {
        if let Job::ResolveRootFiles(t) = &task.0 {
            let under: Vec<DiscoveredFile> = found
                .iter()
                .filter(|f| f.path.starts_with(&t.root))
                .map(|f| DiscoveredFile { path: f.path.clone(), modified: f.modified, digest: f.digest })
                .collect();
            assert!(drive_task(task, db, TaskEvent::Walked(under)));
        }
    }
}

fn native(executable: &str) -> BinaryNative {
    BinaryNative {
        executable: String::from(executable),
        env: vec![(String::from("LANG"), String::from("C"))],
        args: vec![String::from("-O")],
    }
}

fn resolved(path: &str) -> BinaryRuntimeResolved {
    BinaryRuntimeResolved::Native {
        executable: String::from(path),
        env: vec![(String::from("LANG"), String::from("C"))],
        args: vec![String::from("-O")],
    }
}

#[test]
fn a_collection_end_to_end() {
    let mut db = Database::new();
    let src = group(&mut db, "/proj", "**/*.txt");
    let schema = schema_of(&mut db, &[src]);
    let out = Collection::new(
        &mut db,
        String::from("out"),
        vec![CollectionItem { prefix: FsPath::parse("texts"), content: Input::FileGroup(src) }],
    );
    let query = Query::CollectionFiles(schema, out);
    let Step::Resolve(tasks) = drive_round(&db, query) else { panic!("a walk is asked for") };
    assert_eq!(tasks.len(), 1);
    walk(&mut db, &tasks, vec![met("/proj/a.txt", 11), met("/proj/sub/b.txt", 12), met("/proj/c.md", 13)]);
    let Step::Done(Answer::Artifacts(files)) = drive_round(&db, query) else {
        panic!("the collection has its files")
    };
    assert_eq!(
        files,
        vec![placed("texts/a.txt", "/proj/a.txt", 11), placed("texts/sub/b.txt", "/proj/sub/b.txt", 12)]
    );
}

#[test]
fn the_later_item_wins_a_place() {
    let mut db = Database::new();
    let first = group(&mut db, "/x", "**/*.txt");
    let second = group(&mut db, "/y", "*.txt");
    let schema = schema_of(&mut db, &[first, second]);
    let out = Collection::new(
        &mut db,
        String::from("out"),
        vec![
            CollectionItem { prefix: FsPath::parse("out"), content: Input::FileGroup(first) },
            CollectionItem { prefix: FsPath::parse("out/sub"), content: Input::FileGroup(second) },
        ],
    );
    let mut tasks = Vec::new();
    assert_eq!(collection_files(&db, schema, out, &mut tasks), Err(Cause::Pending));
    assert_eq!(tasks.len(), 2);
    walk(
        &mut db,
        &tasks,
        vec![met("/x/sub/f.txt", 1), met("/x/only.txt", 2), met("/y/f.txt", 3), met("/y/more.txt", 4)],
    );
    let mut tasks = Vec::new();
    assert_eq!(
        collection_files(&db, schema, out, &mut tasks),
        Ok(vec![
            placed("out/sub/f.txt", "/y/f.txt", 3),
            placed("out/only.txt", "/x/only.txt", 2),
            placed("out/sub/more.txt", "/y/more.txt", 4),
        ])
    );
    assert_eq!(tasks.len(), 0);
}

#[test]
fn a_pending_item_does_not_stop_the_others() {
    let mut db = Database::new();
    let first = group(&mut db, "/x", "*");
    let second = group(&mut db, "/y", "*");
    let stray = group(&mut db, "/s", "*");
    let schema = schema_of(&mut db, &[first, second]);
    let items = vec![
        CollectionItem { prefix: FsPath::new(), content: Input::FileGroup(first) },
        CollectionItem { prefix: FsPath::new(), content: Input::FileGroup(stray) },
        CollectionItem { prefix: FsPath::new(), content: Input::FileGroup(second) },
    ];
    let out = Collection::new(&mut db, String::from("out"), items);
    let mut tasks = Vec::new();
    assert_eq!(collection_files(&db, schema, out, &mut tasks), Err(Cause::Pending));
    assert_eq!(tasks.len(), 2);
    walk(&mut db, &tasks, vec![met("/x/a", 1), met("/y/b", 2)]);
    let mut tasks = Vec::new();
    assert_eq!(collection_files(&db, schema, out, &mut tasks), Err(error(ErrorKind::Uncovered)));
    assert_eq!(tasks.len(), 0);
    assert_eq!(
        collection_files(&db, schema, Collection { id: 9 }, &mut tasks),
        Err(error(ErrorKind::UnknownCollection))
    );
}

#[test]
fn bundles_gather_like_collections() {
    let mut db = Database::new();
    let src = group(&mut db, "/proj", "*.txt");
    let schema = schema_of(&mut db, &[src]);
    let bundle = Bundle::new(
        &mut db,
        String::from("b"),
        vec![BundleItem { prefix: FsPath::parse("in"), content: Input::FileGroup(src) }],
    );
    let mut tasks = Vec::new();
    assert_eq!(bundle_files(&db, schema, bundle, &mut tasks), Err(Cause::Pending));
    walk(&mut db, &tasks, vec![met("/proj/a.txt", 1)]);
    assert_eq!(
        bundle_files(&db, schema, bundle, &mut tasks),
        Ok(vec![placed("in/a.txt", "/proj/a.txt", 1)])
    );
    assert_eq!(
        bundle_files(&db, schema, Bundle { id: 4 }, &mut tasks),
        Err(error(ErrorKind::UnknownBundle))
    );
}

#[test]
fn the_inputs_of_a_transform() {
    let mut db = Database::new();
    let input = object(vec![
        ("files", Value::Array(vec![reference("FileGroup", 3), reference("Toolchain", 1)])),
        ("more", reference("Transform", 2)),
        ("again", reference("FileGroup", 3)),
    ]);
    let t = Transform::new(&mut db, String::from("t"), RunnerKind::JsFunction(0), input, Value::Null);
    assert_eq!(
        transform_inputs(&db, t),
        Ok(vec![Input::FileGroup(FileGroup { id: 3 }), Input::Transform(Transform { id: 2 })])
    );
    assert_eq!(transform_inputs(&db, Transform { id: 5 }), Err(error(ErrorKind::UnknownTransform)));
}

struct Fixture {
    db: Database,
    schema: Schema,
    src: FileGroup,
    cc: Binary,
    compile: Transform,
}

fn fixture() -> Fixture {
    let mut db = Database::new();
    let src = group(&mut db, "/proj", "*.c");
    let schema = schema_of(&mut db, &[src]);
    let cc = Binary::new(&mut db, String::from("cc"), BinaryRuntime::Native(native("cc")));
    let compile = Transform::new(
        &mut db,
        String::from("compile"),
        RunnerKind::JsFunction(1),
        object(vec![("sources", reference("FileGroup", src.id))]),
        object(vec![("compiler", reference("Toolchain", cc.id)), ("level", text("2"))]),
    );
    Fixture { db, schema, src, cc, compile }
}

fn apply_tasks(tasks: &[RuntimeTask]) -> Vec<(File, Value)> {
    let mut out = Vec::new();
    for task in tasks {
        if let Job::TransformApply(t) = &task.0 {
            out.push((t.file.clone(), t.dependencies.clone()));
        }
    }
    out
}

#[test]
fn a_transform_round_by_round() {
    let Fixture { mut db, schema, src, cc, compile } = fixture();
    let query = Query::TransformFiles(schema, compile);

    let Step::Resolve(tasks) = drive_round(&db, query) else { panic!("round one asks for a walk") };
    assert_eq!(tasks.len(), 1);
    assert!(matches!(tasks[0].0, Job::ResolveRootFiles(_)));
    walk(&mut db, &tasks, vec![met("/proj/a.c", 1), met("/proj/b.c", 2), met("/proj/c.h", 3)]);

    let Step::Resolve(tasks) = drive_round(&db, query) else { panic!("round two asks for the binary") };
    assert_eq!(tasks.len(), 1);
    let Job::BinaryResolve(lookup) = &tasks[0].0 else { panic!("a lookup is asked for") };
    assert_eq!(*lookup, BinaryResolve { schema, binary: cc });
    assert!(!drive_task(&tasks[0], &mut db, TaskEvent::Walked(Vec::new())));
    assert!(drive_task(&tasks[0], &mut db, TaskEvent::Found(Ok(String::from("/usr/bin/cc")))));

    let Step::Resolve(tasks) = drive_round(&db, query) else { panic!("round three asks for the runs") };
    let blob = object(vec![
        ("compiler", ResolvedDependency::Binary(resolved("/usr/bin/cc")).to_value()),
        ("level", text("2")),
    ]);
    assert_eq!(
        apply_tasks(&tasks),
        vec![(file("/proj/a.c", 1), blob.clone()), (file("/proj/b.c", 2), blob.clone())]
    );
    assert_eq!(tasks.len(), 2);
    assert!(drive_task(&tasks[0], &mut db, TaskEvent::Transformed(Ok(file("/out/a.o", 100)))));

    let Step::Resolve(tasks) = drive_round(&db, query) else { panic!("round four asks for one run") };
    assert_eq!(apply_tasks(&tasks), vec![(file("/proj/b.c", 2), blob.clone())]);
    assert!(drive_task(&tasks[0], &mut db, TaskEvent::Transformed(Ok(file("/out/b.o", 200)))));

    let Step::Done(Answer::Files(files)) = drive_round(&db, query) else { panic!("round five is done") };
    assert_eq!(files, vec![file("/out/a.o", 100), file("/out/b.o", 200)]);

    let mut tasks = Vec::new();
    assert_eq!(transform_dependencies(&db, schema, compile, &mut tasks), Ok(blob));
    assert_eq!(
        transform_result_for_file(&db, schema, compile, &file("/proj/a.c", 1), &mut tasks),
        Ok(file("/out/a.o", 100))
    );
    assert_eq!(tasks.len(), 0);
    let _ = src;
}

#[test]
fn a_new_revision_is_pending_again() {
    let Fixture { mut db, schema, src: _, cc, compile } = fixture();
    let mut tasks = Vec::new();
    let _ = transform_files(&db, schema, compile, &mut tasks);
    let walk_task = tasks.remove(0);
    assert!(drive_task(&walk_task, &mut db, TaskEvent::Walked(vec![met("/proj/a.c", 1)])));
    BinaryResolve { schema, binary: cc }.resolve(&mut db, Ok(resolved("/usr/bin/cc")));
    let mut tasks = Vec::new();
    assert_eq!(transform_files(&db, schema, compile, &mut tasks), Err(Cause::Pending));
    assert!(drive_task(&tasks[0], &mut db, TaskEvent::Transformed(Ok(file("/out/a.o", 100)))));
    let mut tasks = Vec::new();
    assert_eq!(transform_files(&db, schema, compile, &mut tasks), Ok(vec![file("/out/a.o", 100)]));

    assert!(drive_task(&walk_task, &mut db, TaskEvent::Walked(vec![met("/proj/a.c", 2)])));
    let mut tasks = Vec::new();
    assert_eq!(transform_files(&db, schema, compile, &mut tasks), Err(Cause::Pending));
    assert_eq!(apply_tasks(&tasks).len(), 1);
    assert_eq!(apply_tasks(&tasks)[0].0, file("/proj/a.c", 2));
    assert_eq!(
        transform_result_for_file(&db, schema, compile, &file("/proj/a.c", 1), &mut Vec::new()),
        Ok(file("/out/a.o", 100))
    );
}

#[test]
fn every_reference_of_the_dependencies_is_a_branch() {
    let mut db = Database::new();
    let src = group(&mut db, "/proj", "*");
    let schema = schema_of(&mut db, &[src]);
    let one = Binary::new(&mut db, String::from("one"), BinaryRuntime::Native(native("one")));
    let two = Binary::new(&mut db, String::from("two"), BinaryRuntime::Native(native("two")));
    let t = Transform::new(
        &mut db,
        String::from("t"),
        RunnerKind::JsFunction(0),
        Value::Null,
        Value::Array(vec![
            reference("Toolchain", one.id),
            reference("FileGroup", src.id),
            reference("Toolchain", two.id),
        ]),
    );
    let mut tasks = Vec::new();
    assert_eq!(transform_dependencies(&db, schema, t, &mut tasks), Err(Cause::Pending));
    assert_eq!(tasks.len(), 3);
    assert!(drive_task(&tasks[0], &mut db, TaskEvent::Found(Err(String::from("one is missing")))));
    assert!(drive_task(&tasks[2], &mut db, TaskEvent::Found(Err(String::from("two is missing")))));
    let mut again = Vec::new();
    assert_eq!(transform_dependencies(&db, schema, t, &mut again), Err(Cause::Pending));
    assert_eq!(again.len(), 1);
    assert!(drive_task(&again[0], &mut db, TaskEvent::Walked(vec![met("/proj/f", 4)])));
    let mut last = Vec::new();
    assert_eq!(
        transform_dependencies(&db, schema, t, &mut last),
        Err(Cause::from_err(String::from("one is missing")))
    );
    assert_eq!(last.len(), 0);
    BinaryResolve { schema, binary: one }.resolve(&mut db, Ok(resolved("/bin/one")));
    BinaryResolve { schema, binary: two }.resolve(&mut db, Ok(resolved("/bin/two")));
    assert_eq!(
        transform_dependencies(&db, schema, t, &mut last),
        Ok(Value::Array(vec![
            ResolvedDependency::Binary(resolved("/bin/one")).to_value(),
            ResolvedDependency::Files(vec![file("/proj/f", 4)]).to_value(),
            ResolvedDependency::Binary(resolved("/bin/two")).to_value(),
        ]))
    );
}

#[test]
fn transforms_that_feed_each_other_fail() {
    let mut db = Database::new();
    let schema = schema_of(&mut db, &[]);
    let a = Transform::new(
        &mut db,
        String::from("a"),
        RunnerKind::JsFunction(0),
        reference("Transform", 1),
        Value::Null,
    );
    let b = Transform::new(
        &mut db,
        String::from("b"),
        RunnerKind::JsFunction(1),
        reference("Transform", 0),
        Value::Null,
    );
    let mut tasks = Vec::new();
    assert_eq!(transform_files(&db, schema, a, &mut tasks), Err(error(ErrorKind::Cycle)));
    assert_eq!(transform_files(&db, schema, b, &mut tasks), Err(error(ErrorKind::Cycle)));
    assert_eq!(
        transform_files(&db, schema, Transform { id: 2 }, &mut tasks),
        Err(error(ErrorKind::UnknownTransform))
    );
    assert_eq!(tasks.len(), 0);
}

#[test]
fn a_transform_of_a_transform() {
    let mut db = Database::new();
    let src = group(&mut db, "/proj", "*.c");
    let schema = schema_of(&mut db, &[src]);
    let compile = Transform::new(
        &mut db,
        String::from("compile"),
        RunnerKind::JsFunction(0),
        reference("FileGroup", src.id),
        Value::Null,
    );
    let link = Transform::new(
        &mut db,
        String::from("link"),
        RunnerKind::JsFunction(1),
        reference("Transform", compile.id),
        Value::Null,
    );
    let query = Query::TransformFiles(schema, link);
    let Step::Resolve(tasks) = drive_round(&db, query) else { panic!("a walk") };
    walk(&mut db, &tasks, vec![met("/proj/a.c", 1)]);
    let Step::Resolve(tasks) = drive_round(&db, query) else { panic!("a compile run") };
    let Job::TransformApply(run) = &tasks[0].0 else { panic!("a run") };
    assert_eq!((run.transform, run.file.clone()), (compile, file("/proj/a.c", 1)));
    assert!(drive_task(&tasks[0], &mut db, TaskEvent::Transformed(Ok(file("/out/a.o", 5)))));
    let Step::Resolve(tasks) = drive_round(&db, query) else { panic!("a link run") };
    let Job::TransformApply(run) = &tasks[0].0 else { panic!("a run") };
    assert_eq!((run.transform, run.file.clone()), (link, file("/out/a.o", 5)));
    assert!(drive_task(
        &tasks[0],
        &mut db,
        TaskEvent::Transformed(Err(Cause::from_err(String::from("ld: failed"))))
    ));
    let Step::Failed(e) = drive_round(&db, query) else { panic!("the run failed") };
    assert_eq!(e, ResolutionError { kind: ErrorKind::External, detail: String::from("ld: failed") });
}

#[test]
fn binaries_and_toolchains_resolve_through_lookups() {
    let mut db = Database::new();
    let schema = schema_of(&mut db, &[]);
    let cc = Binary::new(&mut db, String::from("cc"), BinaryRuntime::Native(native("cc")));
    let mut tasks = Vec::new();
    assert_eq!(binary_resolve(&db, schema, cc, &mut tasks), Err(Cause::Pending));
    assert_eq!(binary_resolve(&db, schema, cc, &mut tasks), Err(Cause::Pending));
    assert_eq!(tasks.len(), 1);
    let lookup = BinaryResolve { schema, binary: cc };
    assert_eq!(lookup.outcome(&db, Ok(String::from("/usr/bin/cc"))), Ok(resolved("/usr/bin/cc")));
    assert_eq!(
        lookup.outcome(&db, Err(String::from("cannot find binary path"))),
        Err(Cause::from_err(String::from("cannot find binary path")))
    );
    let ghost = BinaryResolve { schema, binary: Binary { id: 8 } };
    assert_eq!(ghost.outcome(&db, Ok(String::from("/x"))), Err(error(ErrorKind::UnknownBinary)));
    assert!(drive_task(&tasks[0], &mut db, TaskEvent::Found(Ok(String::from("/usr/bin/cc")))));
    let mut tasks = Vec::new();
    assert_eq!(binary_resolve(&db, schema, cc, &mut tasks), Ok(resolved("/usr/bin/cc")));
    assert_eq!(tasks.len(), 0);

    let tool = Toolchain::new(&mut db, String::from("node"), String::from("node"), String::from("js"));
    assert_eq!(db.toolchain(tool).unwrap().binary, "node");
    assert_eq!(toolchain_resolve(&db, tool, &mut tasks), Err(Cause::Pending));
    assert_eq!(tasks.len(), 1);
    assert!(drive_task(&tasks[0], &mut db, TaskEvent::Found(Ok(String::from("/bin/node")))));
    assert_eq!(
        toolchain_resolve(&db, tool, &mut Vec::new()),
        Ok(ToolchainObject { binary: String::from("/bin/node") })
    );
    db.store(tasks[0].key(), Ok(TaskValue::Binary(resolved("/x"))));
    assert_eq!(toolchain_resolve(&db, tool, &mut Vec::new()), Err(error(ErrorKind::WrongKind)));
    db.store(TaskKey::Binary { schema, binary: cc }, Ok(TaskValue::File(file("/x", 1))));
    assert_eq!(binary_resolve(&db, schema, cc, &mut Vec::new()), Err(error(ErrorKind::WrongKind)));
}

#[test]
fn what_to_do_after_an_evaluation() {
    assert!(matches!(drive_step(Ok(5u8), Vec::new()), Step::Done(5)));
    let failed = drive_step::<u8>(Err(Cause::from_err(String::from("boom"))), Vec::new());
    let Step::Failed(e) = failed else { panic!("failed") };
    assert_eq!(e.detail, "boom");
    assert!(matches!(drive_step::<u8>(Err(Cause::Pending), Vec::new()), Step::Stalled));
    let task = RuntimeTask(Job::BinaryResolve(BinaryResolve {
        schema: Schema { id: 0 },
        binary: Binary { id: 0 },
    }));
    let Step::Resolve(tasks) = drive_step::<u8>(Err(Cause::Pending), vec![task]) else {
        panic!("tasks to resolve")
    };
    assert_eq!(tasks.len(), 1);
}

#[test]
fn a_service_is_driven_to_its_executable() {
    let mut db = Database::new();
    let schema = schema_of(&mut db, &[]);
    let web = Binary::new(&mut db, String::from("web"), BinaryRuntime::Native(native("httpd")));
    let query = Query::BinaryResolve(schema, web);
    let Step::Resolve(tasks) = drive_round(&db, query) else { panic!("a lookup") };
    assert!(drive_task(&tasks[0], &mut db, TaskEvent::Found(Err(String::from("not on the path")))));
    let Step::Failed(e) = drive_round(&db, query) else { panic!("the lookup failed") };
    assert_eq!(e.kind, ErrorKind::External);
    assert_eq!(e.detail, "not on the path");
    let Step::Failed(e) = drive_round(&db, Query::FileGroupFiles(schema, FileGroup { id: 0 })) else {
        panic!("no such group in the schema")
    };
    assert_eq!(e.kind, ErrorKind::Uncovered);
}

#[test]
fn a_snapshot_answers_as_the_database_did() {
    let Fixture { mut db, schema, src, cc: _, compile } = fixture();
    let mut tasks = Vec::new();
    let _ = kabina::file_group_files(&db, schema, src, &mut tasks);
    let before = db.snapshot();
    assert!(drive_task(&tasks[0], &mut db, TaskEvent::Walked(vec![met("/proj/a.c", 1)])));
    src.set_root(&mut db, FsPath::parse("/elsewhere"));
    let mut then = Vec::new();
    assert_eq!(kabina::file_group_files(&before, schema, src, &mut then), Err(Cause::Pending));
    assert_eq!(then.len(), 1);
    assert_eq!(then[0].key(), tasks[0].key());
    assert_eq!(before.file_group(src).unwrap().root, FsPath::parse("/proj"));
    assert_eq!(transform_inputs(&before, compile), transform_inputs(&db, compile));
    let copy = db.snapshot();
    let mut now = Vec::new();
    let mut copied = Vec::new();
    assert_eq!(
        kabina::file_group_files(&db, schema, src, &mut now),
        kabina::file_group_files(&copy, schema, src, &mut copied)
    );
    assert_eq!(now.len(), copied.len());
}
