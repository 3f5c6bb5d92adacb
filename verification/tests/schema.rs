use kabina::{
    Binary, BinaryNative, BinaryRuntime, Cause, Collection, Database, ErrorKind, FileGroup,
    FsPath, ProcessConfig, ProcessMananger, BinaryRuntimeResolved, Schema, SchemaBuilder, Server,
    Service, Transform,
};

#[test]
fn a_schema_holds_what_was_registered_once_and_in_order() {
    let mut db = Database::new();
    let mut builder = SchemaBuilder::new();
    for id in [5usize, 1, 9, 1, 3, 5] {
        builder.register_file_group(FileGroup { id });
    }
    builder.register_transform(Transform { id: 2 });
    builder.register_transform(Transform { id: 0 });
    builder.register_collection(Collection { id: 4 });
    builder.register_server(Server { id: 8 });
    builder.register_service(Service { id: 7 });
    builder.register_service(Service { id: 6 });
    builder.register_binary(Binary { id: 1 });
    let schema = Schema::new(&mut db, String::from("file:///s.ts"), builder);
    assert_eq!(schema, Schema { id: 0 });
    let data = db.schema(schema).unwrap();
    assert_eq!(data.url, "file:///s.ts");
    let ids: Vec<usize> = data.file_groups.iter().map(|g| g.id).collect();
    assert_eq!(ids, vec![1, 3, 5, 9]);
    assert_eq!(data.transforms, vec![Transform { id: 0 }, Transform { id: 2 }]);
    assert_eq!(data.collections, vec![Collection { id: 4 }]);
    assert_eq!(data.servers, vec![Server { id: 8 }]);
    assert_eq!(data.services, vec![Service { id: 6 }, Service { id: 7 }]);
    assert_eq!(data.binaries, vec![Binary { id: 1 }]);
    assert!(db.schema(Schema { id: 1 }).is_none());
    let second = Schema::new(&mut db, String::from("file:///t.ts"), SchemaBuilder::new());
    assert_eq!(second, Schema { id: 1 });
    assert!(db.schema(second).unwrap().file_groups.is_empty());
}

#[test]
fn schemas_by_address() {
    let mut db = Database::new();
    let first = Schema::new(&mut db, String::from("a"), SchemaBuilder::new());
    let second = Schema::new(&mut db, String::from("a"), SchemaBuilder::new());
    assert_eq!(db.schema_at("a"), None);
    db.schema_add(String::from("a"), first);
    db.schema_add(String::from("b"), first);
    assert_eq!(db.schema_at("a"), Some(first));
    db.schema_add(String::from("a"), second);
    assert_eq!(db.schema_at("a"), Some(second));
    assert_eq!(db.schema_at("b"), Some(first));
    assert_eq!(db.schema_at("c"), None);
}

#[test]
fn handles_count_up_from_zero() {
    let mut db = Database::new();
    let a = FileGroup::new(&mut db, String::from("a"), FsPath::parse("/a"), Vec::new());
    let b = FileGroup::new(&mut db, String::from("b"), FsPath::parse("/b"), Vec::new());
    assert_eq!((a.id, b.id), (0, 1));
    assert_eq!(db.file_group(b).unwrap().name, "b");
    assert!(db.file_group(FileGroup { id: 2 }).is_none());
    assert!(!FileGroup { id: 2 }.set_root(&mut db, FsPath::new()));
    assert!(a.set_root(&mut db, FsPath::parse("/c")));
    assert_eq!(db.file_group(a).unwrap().root, FsPath::parse("/c"));
    assert_eq!(db.file_group(a).unwrap().name, "a");
    let server = Server::new(&mut db, String::from("web"));
    assert_eq!(db.server(server).unwrap().name, "web");
    let native = BinaryNative { executable: String::from("cc"), env: Vec::new(), args: Vec::new() };
    let binary = Binary::new(&mut db, String::from("cc"), BinaryRuntime::Native(native));
    let service = Service::new(&mut db, String::from("compiler"), binary);
    assert_eq!(db.service(service).unwrap().binary, binary);
    assert!(db.service(Service { id: 3 }).is_none());
    assert!(db.binary(Binary { id: 3 }).is_none());
}

#[test]
fn causes_as_text() {
    assert_eq!(Cause::Pending.to_string(), "Data is not available");
    assert_eq!(Cause::from_err(String::from("no such file")).to_string(), "Generic no such file");
    assert_eq!(Cause::error(ErrorKind::Cycle).to_string(), "Generic ");
    assert!(Cause::Pending.is_pending());
    assert!(!Cause::error(ErrorKind::Cycle).is_pending());
}

fn config(executable: &str, arg: &str) -> ProcessConfig {
    ProcessConfig {
        executable: String::from(executable),
        env: vec![(String::from("HOME"), String::from("/root"))],
        args: vec![String::from(arg)],
    }
}

#[test]
fn the_manager_keeps_the_last_process_of_a_service() {
    let mut manager = ProcessMananger::new();
    assert!(manager.get(1).is_none());
    let first = manager.spawn(1, config("/bin/a", "x"));
    assert_eq!(first.config, config("/bin/a", "x"));
    let other = manager.spawn(2, config("/bin/b", "y"));
    assert_eq!(other.config, config("/bin/b", "y"));
    assert_eq!(manager.get(1).unwrap().config, config("/bin/a", "x"));
    manager.spawn(1, config("/bin/c", "z"));
    assert_eq!(manager.get(1).unwrap().config, config("/bin/c", "z"));
    assert_eq!(manager.get(2).unwrap().config, config("/bin/b", "y"));
    assert_eq!(manager.running.len(), 2);
}

#[test]
fn what_to_spawn_for_a_resolved_binary() {
    let resolved = BinaryRuntimeResolved::Native {
        executable: String::from("/bin/a"),
        env: vec![(String::from("HOME"), String::from("/root"))],
        args: vec![String::from("x")],
    };
    assert_eq!(ProcessConfig::of(resolved), config("/bin/a", "x"));
}

#[test]
fn what_a_schema_names_and_launches() {
    let mut db = Database::new();
    let first = Collection::new(&mut db, String::from("out"), Vec::new());
    let second = Collection::new(&mut db, String::from("docs"), Vec::new());
    let twin = Collection::new(&mut db, String::from("docs"), Vec::new());
    let stray = Collection::new(&mut db, String::from("stray"), Vec::new());
    let native = BinaryNative { executable: String::from("web"), env: Vec::new(), args: Vec::new() };
    let web = Binary::new(&mut db, String::from("web"), BinaryRuntime::Native(native));
    let a = Service::new(&mut db, String::from("a"), web);
    let b = Service::new(&mut db, String::from("b"), Binary { id: 9 });
    let mut builder = SchemaBuilder::new();
    builder.register_collection(twin);
    builder.register_collection(second);
    builder.register_collection(first);
    builder.register_collection(Collection { id: 40 });
    builder.register_service(b);
    builder.register_service(Service { id: 7 });
    builder.register_service(a);
    let schema = Schema::new(&mut db, String::new(), builder);
    assert_eq!(Collection::named(&db, schema, "out"), Some(first));
    assert_eq!(Collection::named(&db, schema, "docs"), Some(second));
    assert_eq!(Collection::named(&db, schema, "stray"), None);
    assert_eq!(Collection::named(&db, schema, "nothing"), None);
    assert_eq!(Collection::named(&db, Schema { id: 3 }, "out"), None);
    let _ = stray;
    assert_eq!(kabina::schema_services(&db, schema), vec![(a, web), (b, Binary { id: 9 })]);
    assert_eq!(kabina::schema_services(&db, Schema { id: 3 }), Vec::new());
    let lookup = kabina::BinaryResolve { schema, binary: web };
    assert_eq!(lookup.executable(&db), Some(String::from("web")));
    assert_eq!(kabina::BinaryResolve { schema, binary: Binary { id: 9 } }.executable(&db), None);
}
