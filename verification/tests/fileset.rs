use kabina::{
    file_group_files, file_group_matcher, file_group_resolved_paths, file_group_root,
    root_file_groups, root_files, roots, Cause, Database, DiscoveredFile, ErrorKind, Executable,
    File, FileGroup, FileGroupItem, FileGroupStategy, FsPath, Job, RuntimeTask, Schema,
    SchemaBuilder, SchemaRoots, TaskKey, TaskValue,
};

fn item(pattern: &str, strategy: FileGroupStategy) -> FileGroupItem {
    FileGroupItem { strategy, pattern: String::from(pattern) }
}

fn group(db: &mut Database, name: &str, root: &str, patterns: &[&str]) -> FileGroup {
    let items = patterns.iter().map(|p| item(p, FileGroupStategy::Time)).collect();
    FileGroup::new(db, String::from(name), FsPath::parse(root), items)
}

fn schema_of(db: &mut Database, groups: &[FileGroup]) -> Schema {
    let mut builder = SchemaBuilder::new();
    for g in groups {
        builder.register_file_group(*g);
    }
    Schema::new(db, String::from("file:///proj/schema.ts"), builder)
}

fn met(path: &str, modified: u64, digest: u64) -> DiscoveredFile {
    DiscoveredFile { path: FsPath::parse(path), modified, digest }
}

fn file(path: &str, revision: u64) -> File {
    File { path: FsPath::parse(path), revision }
}

fn error(kind: ErrorKind) -> Cause {
    Cause::error(kind)
}

#[test]
fn test() {
    let mut db = Database::new();

    let files = FileGroup::new(
        &mut db,
        String::from("Test"),
        FsPath::new(),
        vec![FileGroupItem { strategy: FileGroupStategy::Time, pattern: String::from("**/*") }],
    );

    let mut builder = SchemaBuilder::new();
    builder.register_file_group(files);
    let schema = Schema::new(&mut db, String::new(), builder);

    let mut tasks: Vec<RuntimeTask> = Vec::new();
    let _ = file_group_files(&db, schema, files, &mut tasks);
    assert_eq!(tasks.len(), 1);

    let mut tasks: Vec<RuntimeTask> = Vec::new();
    let _ = file_group_files(&db, schema, files, &mut tasks);
    assert_eq!(tasks.len(), 1);

    for task in tasks {
        if let Job::ResolveRootFiles(task) = &task.0 {
            db.store(
                TaskKey::Root(task.request()),
                Ok(TaskValue::RootFiles(
                    task.matchers.iter().map(|m| (m.group(), Vec::new())).collect(),
                )),
            )
        }
    }

    let mut tasks: Vec<RuntimeTask> = Vec::new();
    let result = file_group_files(&db, schema, files, &mut tasks);
    assert!(result.is_ok());
    assert_eq!(tasks.len(), 0);

    files.set_root(&mut db, FsPath::parse("abc"));

    let mut tasks: Vec<RuntimeTask> = Vec::new();
    let result = file_group_files(&db, schema, files, &mut tasks);
    assert!(result.is_err());
    assert_eq!(tasks.len(), 1);
}

fn attachment(all: &SchemaRoots, g: FileGroup) -> (String, String) {
    let (root, prefix) = all.root_of(g).unwrap();
    (root.to_text(), prefix.to_text())
}

#[test]
fn nested_roots_coalesce_into_the_outermost() {
    let mut db = Database::new();
    let a = group(&mut db, "a", "/a", &["*"]);
    let b = group(&mut db, "b", "/a/b", &["*"]);
    let c = group(&mut db, "c", "/a/b/c", &["*"]);
    let schema = schema_of(&mut db, &[a, b, c]);
    let all = roots(&db, schema);
    let names: Vec<String> = all.roots().iter().map(|r| r.to_text()).collect();
    assert_eq!(names, vec![String::from("/a")]);
    assert_eq!(attachment(&all, a), (String::from("/a"), String::from("")));
    assert_eq!(attachment(&all, b), (String::from("/a"), String::from("b")));
    assert_eq!(attachment(&all, c), (String::from("/a"), String::from("b/c")));
}

#[test]
fn a_more_general_root_absorbs_the_roots_under_it() {
    let mut db = Database::new();
    let c = group(&mut db, "c", "/a/b/c", &["*"]);
    let d = group(&mut db, "d", "/a/d", &["*"]);
    let other = group(&mut db, "other", "/z", &["*"]);
    let a = group(&mut db, "a", "/a", &["*"]);
    let mut all = SchemaRoots::new();
    all.add(&db, c);
    all.add(&db, d);
    all.add(&db, other);
    let names: Vec<String> = all.roots().iter().map(|r| r.to_text()).collect();
    assert_eq!(names, vec!["/a/b/c", "/a/d", "/z"]);
    all.add(&db, a);
    let names: Vec<String> = all.roots().iter().map(|r| r.to_text()).collect();
    assert_eq!(names, vec!["/a", "/z"]);
    assert_eq!(attachment(&all, c), (String::from("/a"), String::from("b/c")));
    assert_eq!(attachment(&all, d), (String::from("/a"), String::from("d")));
    assert_eq!(attachment(&all, a), (String::from("/a"), String::from("")));
    assert_eq!(attachment(&all, other), (String::from("/z"), String::from("")));
}

#[test]
fn roots_are_listed_in_the_order_of_paths() {
    let mut db = Database::new();
    let z = group(&mut db, "z", "/z", &["*"]);
    let rel = group(&mut db, "rel", "rel/b", &["*"]);
    let m = group(&mut db, "m", "/m/x", &["*"]);
    let dash = group(&mut db, "dash", "-tmp", &["*"]);
    let a = group(&mut db, "a", "/a", &["*"]);
    let schema = schema_of(&mut db, &[z, rel, m, dash, a]);
    let names: Vec<String> = roots(&db, schema).roots().iter().map(|r| r.to_text()).collect();
    assert_eq!(names, vec!["/a", "/m/x", "/z", "-tmp", "rel/b"]);
}

#[test]
fn adding_a_group_again_moves_it() {
    let mut db = Database::new();
    let a = group(&mut db, "a", "/a", &["*"]);
    let b = group(&mut db, "b", "/a/b", &["*"]);
    let mut all = SchemaRoots::new();
    all.add(&db, a);
    all.add(&db, b);
    b.set_root(&mut db, FsPath::parse("/a/c/d"));
    all.add(&db, b);
    assert_eq!(attachment(&all, b), (String::from("/a"), String::from("c/d")));
    all.add(&db, FileGroup { id: 99 });
    assert!(all.root_of(FileGroup { id: 99 }).is_none());
    assert!(all.has_root(&FsPath::parse("/a")));
    assert!(!all.has_root(&FsPath::parse("/a/b")));
}

#[test]
fn the_empty_root_covers_every_path() {
    let mut db = Database::new();
    let everything = group(&mut db, "all", "", &["**/*"]);
    let abs = group(&mut db, "abs", "/a", &["*"]);
    let schema = schema_of(&mut db, &[everything, abs]);
    let all = roots(&db, schema);
    assert_eq!(all.roots().len(), 1);
    assert_eq!(attachment(&all, abs), (String::from(""), String::from("/a")));
    assert_eq!(file_group_root(&db, schema, abs), Ok(FsPath::new()));
}

#[test]
fn queries_on_roots() {
    let mut db = Database::new();
    let a = group(&mut db, "a", "/a", &["*"]);
    let b = group(&mut db, "b", "/a/b", &["*"]);
    let z = group(&mut db, "z", "/z", &["*"]);
    let stray = group(&mut db, "stray", "/q", &["*"]);
    let schema = schema_of(&mut db, &[a, b, z]);
    assert_eq!(file_group_root(&db, schema, b), Ok(FsPath::parse("/a")));
    assert_eq!(file_group_root(&db, schema, z), Ok(FsPath::parse("/z")));
    assert_eq!(file_group_root(&db, schema, stray), Err(error(ErrorKind::Uncovered)));
    assert_eq!(file_group_root(&db, Schema { id: 7 }, a), Err(error(ErrorKind::UnknownSchema)));
    assert_eq!(
        root_file_groups(&db, schema, &FsPath::parse("/a")),
        Ok(vec![(a, FsPath::new()), (b, FsPath::parse("b"))])
    );
    assert_eq!(
        root_file_groups(&db, schema, &FsPath::parse("/a/b")),
        Err(error(ErrorKind::UnknownRoot))
    );
    assert_eq!(
        root_file_groups(&db, Schema { id: 7 }, &FsPath::parse("/a")),
        Err(error(ErrorKind::UnknownSchema))
    );
}

#[test]
fn a_matcher_puts_the_prefix_before_each_pattern() {
    let mut db = Database::new();
    let g = group(&mut db, "g", "/a/b", &["*.txt", "docs/**/*.md"]);
    let m = file_group_matcher(&db, g, FsPath::parse("b")).unwrap();
    assert_eq!(m.group(), g);
    assert_eq!(m.strategy("b/x.txt"), Some(FileGroupStategy::Time));
    assert_eq!(m.strategy("b/docs/deep/er/readme.md"), Some(FileGroupStategy::Time));
    assert_eq!(m.strategy("x.txt"), None);
    assert_eq!(m.strategy("b/x.rs"), None);
    let bare = file_group_matcher(&db, g, FsPath::new()).unwrap();
    assert_eq!(bare.strategy("x.txt"), Some(FileGroupStategy::Time));
    assert_eq!(bare.strategy("x.rs"), None);
}

#[test]
fn the_first_matching_item_gives_the_strategy() {
    let mut db = Database::new();
    let g = FileGroup::new(
        &mut db,
        String::from("g"),
        FsPath::parse("/p"),
        vec![
            item("*.bin", FileGroupStategy::Hash),
            item("**/*", FileGroupStategy::Time),
            item("*.txt", FileGroupStategy::Hash),
        ],
    );
    let m = file_group_matcher(&db, g, FsPath::new()).unwrap();
    assert_eq!(m.strategy("a.bin"), Some(FileGroupStategy::Hash));
    assert_eq!(m.strategy("a.txt"), Some(FileGroupStategy::Time));
    let schema = schema_of(&mut db, &[g]);
    let mut tasks = Vec::new();
    assert_eq!(file_group_files(&db, schema, g, &mut tasks), Err(Cause::Pending));
    let Job::ResolveRootFiles(walk) = &tasks[0].0 else { panic!("a walk is asked for") };
    walk.resolve(&mut db, &vec![met("/p/a.bin", 10, 777), met("/p/a.txt", 20, 888)]);
    let mut tasks = Vec::new();
    assert_eq!(
        file_group_files(&db, schema, g, &mut tasks),
        Ok(vec![file("/p/a.bin", 777), file("/p/a.txt", 20)])
    );
}

#[test]
fn patterns_that_are_no_globs_fail() {
    let mut db = Database::new();
    let bad = group(&mut db, "bad", "/a", &["*.txt", "["]);
    let schema = schema_of(&mut db, &[bad]);
    assert_eq!(
        file_group_matcher(&db, bad, FsPath::new()).err(),
        Some(error(ErrorKind::InvalidPattern))
    );
    assert_eq!(
        file_group_matcher(&db, FileGroup { id: 9 }, FsPath::new()).err(),
        Some(error(ErrorKind::UnknownFileGroup))
    );
    let mut tasks = Vec::new();
    assert_eq!(
        file_group_files(&db, schema, bad, &mut tasks),
        Err(error(ErrorKind::InvalidPattern))
    );
    assert_eq!(tasks.len(), 0);
}

#[test]
fn pending_then_resolved() {
    let mut db = Database::new();
    let src = group(&mut db, "src", "/proj/src", &["**/*.rs"]);
    let docs = group(&mut db, "docs", "/proj", &["*.md"]);
    let schema = schema_of(&mut db, &[src, docs]);
    let mut tasks = Vec::new();
    assert_eq!(file_group_files(&db, schema, src, &mut tasks), Err(Cause::Pending));
    assert_eq!(tasks.len(), 1);
    let Job::ResolveRootFiles(walk) = &tasks[0].0 else { panic!("a walk is asked for") };
    assert_eq!(walk.schema, schema);
    assert_eq!(walk.root, FsPath::parse("/proj"));
    assert_eq!(walk.matchers.len(), 2);
    walk.resolve(
        &mut db,
        &vec![
            met("/proj/README.md", 5, 0),
            met("/proj/src/lib.rs", 7, 0),
            met("/proj/src/deep/mod.rs", 9, 0),
            met("/proj/src/notes.md", 11, 0),
            met("/elsewhere/x.rs", 13, 0),
        ],
    );
    let mut tasks = Vec::new();
    assert_eq!(
        file_group_files(&db, schema, src, &mut tasks),
        Ok(vec![file("/proj/src/lib.rs", 7), file("/proj/src/deep/mod.rs", 9)])
    );
    assert_eq!(tasks.len(), 0);
    assert_eq!(
        file_group_files(&db, schema, docs, &mut tasks),
        Ok(vec![file("/proj/README.md", 5), file("/proj/src/notes.md", 11)])
    );
    assert_eq!(
        file_group_resolved_paths(&db, schema, docs, &mut tasks),
        Ok(vec![FsPath::parse("/proj/README.md"), FsPath::parse("/proj/src/notes.md")])
    );
    assert_eq!(tasks.len(), 0);
}

#[test]
fn asking_again_changes_nothing() {
    let mut db = Database::new();
    let src = group(&mut db, "src", "/proj", &["**/*.rs"]);
    let schema = schema_of(&mut db, &[src]);
    let mut tasks = Vec::new();
    let first = file_group_files(&db, schema, src, &mut tasks);
    let second = file_group_files(&db, schema, src, &mut tasks);
    assert_eq!(first, second);
    assert_eq!(tasks.len(), 1);
    let key = tasks[0].key();
    db.store(key, Err(Cause::from_err(String::from("disk on fire"))));
    let mut tasks = Vec::new();
    let first = file_group_files(&db, schema, src, &mut tasks);
    let second = file_group_files(&db, schema, src, &mut tasks);
    assert_eq!(first, Err(Cause::from_err(String::from("disk on fire"))));
    assert_eq!(first, second);
    assert_eq!(tasks.len(), 0);
}

#[test]
fn changed_patterns_ask_for_a_new_walk() {
    let mut db = Database::new();
    let src = group(&mut db, "src", "/proj", &["*.rs"]);
    let schema = schema_of(&mut db, &[src]);
    let mut tasks = Vec::new();
    let _ = root_files(&db, schema, FsPath::parse("/proj"), &mut tasks);
    let Job::ResolveRootFiles(walk) = &tasks[0].0 else { panic!("a walk is asked for") };
    walk.resolve(&mut db, &vec![met("/proj/a.rs", 1, 0)]);
    let mut tasks = Vec::new();
    assert_eq!(
        root_files(&db, schema, FsPath::parse("/proj"), &mut tasks),
        Ok(vec![(src, vec![file("/proj/a.rs", 1)])])
    );
    db.file_groups[src.id].items.push(item("*.txt", FileGroupStategy::Time));
    assert_eq!(root_files(&db, schema, FsPath::parse("/proj"), &mut tasks), Err(Cause::Pending));
    assert_eq!(tasks.len(), 1);
}

#[test]
fn what_is_stored_for_a_walk_must_fit() {
    let mut db = Database::new();
    let src = group(&mut db, "src", "/proj", &["*.rs"]);
    let schema = schema_of(&mut db, &[src]);
    let mut tasks = Vec::new();
    let _ = file_group_files(&db, schema, src, &mut tasks);
    let key = tasks[0].key();
    db.store(key.clone(), Ok(TaskValue::RootFiles(Vec::new())));
    let mut tasks = Vec::new();
    assert_eq!(
        file_group_files(&db, schema, src, &mut tasks),
        Err(error(ErrorKind::MissingGroup))
    );
    db.store(key, Ok(TaskValue::File(file("/proj/a.rs", 1))));
    assert_eq!(file_group_files(&db, schema, src, &mut tasks), Err(error(ErrorKind::WrongKind)));
    assert_eq!(
        root_files(&db, schema, FsPath::parse("/nowhere"), &mut tasks),
        Err(error(ErrorKind::UnknownRoot))
    );
    assert_eq!(
        root_files(&db, Schema { id: 5 }, FsPath::parse("/proj"), &mut tasks),
        Err(error(ErrorKind::UnknownSchema))
    );
    assert_eq!(tasks.len(), 0);
}

#[test]
fn digests_of_contents() {
    assert_eq!(kabina::content_digest(b""), 0xcbf29ce484222325);
    assert_eq!(kabina::content_digest(b"a"), 0xaf63dc4c8601ec8c);
    assert_eq!(kabina::content_digest(b"foobar"), 0x85944171f73967e8);
}

#[test]
fn a_walk_digests_contents_where_an_item_goes_by_content() {
    let mut db = Database::new();
    let plain = group(&mut db, "plain", "/p", &["*.a", "*.b"]);
    let hashed = FileGroup::new(
        &mut db,
        String::from("hashed"),
        FsPath::parse("/h"),
        vec![item("*.a", FileGroupStategy::Time), item("*.b", FileGroupStategy::Hash)],
    );
    let schema = schema_of(&mut db, &[plain, hashed]);
    let mut tasks = Vec::new();
    let _ = file_group_files(&db, schema, plain, &mut tasks);
    let _ = file_group_files(&db, schema, hashed, &mut tasks);
    assert_eq!(tasks.len(), 2);
    let Job::ResolveRootFiles(first) = &tasks[0].0 else { panic!("a walk") };
    let Job::ResolveRootFiles(second) = &tasks[1].0 else { panic!("a walk") };
    assert!(!first.needs_digest());
    assert!(second.needs_digest());
}
