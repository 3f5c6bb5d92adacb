use kabina::script::{
    binary, bundle, collection, directory_of, file_group, name_has_extension, server, service,
    toolchain, transform,
};
use kabina::{
    map_js_dep, Binary, Database, Dependency, FileGroup, FileGroupStategy, FsPath, Input, JsBinary,
    JsBinaryNative, JsBinaryRuntime, JsBundle, JsBundleItem, JsCollection, JsCollectionItem,
    JsDependency, JsFileGroup, JsFileGroupItem, JsFileGroupItemShortcut, JsFileGroupStategy,
    JsServer, JsService, JsToolchain, JsTransform, RunnerKind, Schema, SchemaBuilder, Transform,
    Value,
};

#[test]
fn references_of_a_script() {
    assert_eq!(map_js_dep(JsDependency::FileGroup { id: 1 }), Dependency::FileGroup(FileGroup { id: 1 }));
    assert_eq!(map_js_dep(JsDependency::Transform { id: 2 }), Dependency::Transform(Transform { id: 2 }));
    assert_eq!(map_js_dep(JsDependency::Toolchain { id: 3 }), Dependency::Toolchain(Binary { id: 3 }));
}

#[test]
fn extensions_of_file_names() {
    assert!(name_has_extension("schema.ts"));
    assert!(name_has_extension("a.b.c"));
    assert!(name_has_extension("a."));
    assert!(!name_has_extension("schema"));
    assert!(!name_has_extension(".hidden"));
    assert!(name_has_extension(".hidden.ts"));
    assert!(!name_has_extension(".."));
    assert!(!name_has_extension(""));
    assert!(!name_has_extension("/"));
}

#[test]
fn the_directory_of_a_module() {
    assert_eq!(directory_of(&FsPath::parse("/proj/schema.ts")), FsPath::parse("/proj"));
    assert_eq!(directory_of(&FsPath::parse("/proj/dir")), FsPath::parse("/proj/dir"));
    assert_eq!(directory_of(&FsPath::parse("/")), FsPath::parse("/"));
    assert_eq!(directory_of(&FsPath::new()), FsPath::new());
}

fn declared(module: &str, root: Option<&str>, items: Vec<JsFileGroupItemShortcut>) -> JsFileGroup {
    JsFileGroup {
        name: String::from("g"),
        module: FsPath::parse(module),
        root: root.map(String::from),
        items,
    }
}

#[test]
fn a_file_group_of_a_script() {
    let mut db = Database::new();
    let mut builder = SchemaBuilder::new();
    let items = vec![
        JsFileGroupItemShortcut::String(String::from("*.rs")),
        JsFileGroupItemShortcut::Item(JsFileGroupItem { strategy: None, pattern: String::from("a") }),
        JsFileGroupItemShortcut::Item(JsFileGroupItem {
            strategy: Some(JsFileGroupStategy::Hash),
            pattern: String::from("b"),
        }),
        JsFileGroupItemShortcut::Item(JsFileGroupItem {
            strategy: Some(JsFileGroupStategy::Time),
            pattern: String::from("c"),
        }),
    ];
    let g = file_group(&mut db, &mut builder, declared("/proj/schema.ts", Some("src/lib"), items));
    let data = db.file_group(g).unwrap();
    assert_eq!(data.name, "g");
    assert_eq!(data.root, FsPath::parse("/proj/src/lib"));
    let got: Vec<(&str, FileGroupStategy)> =
        data.items.iter().map(|i| (i.pattern.as_str(), i.strategy)).collect();
    assert_eq!(
        got,
        vec![
            ("*.rs", FileGroupStategy::Time),
            ("a", FileGroupStategy::Time),
            ("b", FileGroupStategy::Hash),
            ("c", FileGroupStategy::Time),
        ]
    );
    let h = file_group(&mut db, &mut builder, declared("/proj/schema.ts", None, Vec::new()));
    assert_eq!(db.file_group(h).unwrap().root, FsPath::parse("/proj"));
    let k = file_group(&mut db, &mut builder, declared("/proj/schema.ts", Some("/abs"), Vec::new()));
    assert_eq!(db.file_group(k).unwrap().root, FsPath::parse("/abs"));
    let schema = Schema::new(&mut db, String::new(), builder);
    assert_eq!(db.schema(schema).unwrap().file_groups, vec![g, h, k]);
}

#[test]
fn the_rest_of_a_script() {
    let mut db = Database::new();
    let mut builder = SchemaBuilder::new();
    let t = transform(
        &mut db,
        &mut builder,
        JsTransform {
            name: String::from("t"),
            module: FsPath::parse("/proj/schema.ts"),
            runner: 4,
            input: Value::Null,
            dependencies: Value::Bool(true),
        },
    );
    assert_eq!(db.transform(t).unwrap().runner, RunnerKind::JsFunction(4));
    assert_eq!(db.transform(t).unwrap().dependencies, Value::Bool(true));
    let c = collection(
        &mut db,
        &mut builder,
        JsCollection {
            name: String::from("c"),
            items: vec![
                JsCollectionItem { prefix: FsPath::parse("a"), content: JsDependency::FileGroup { id: 0 } },
                JsCollectionItem { prefix: FsPath::parse("b"), content: JsDependency::Transform { id: 0 } },
            ],
        },
    )
    .unwrap();
    let items = &db.collection(c).unwrap().items;
    assert_eq!(items[0].content, Input::FileGroup(FileGroup { id: 0 }));
    assert_eq!(items[1].content, Input::Transform(Transform { id: 0 }));
    assert_eq!(items[1].prefix, FsPath::parse("b"));
    let refused = collection(
        &mut db,
        &mut builder,
        JsCollection {
            name: String::from("bad"),
            items: vec![
                JsCollectionItem { prefix: FsPath::new(), content: JsDependency::FileGroup { id: 0 } },
                JsCollectionItem { prefix: FsPath::new(), content: JsDependency::Toolchain { id: 0 } },
            ],
        },
    );
    assert_eq!(refused, None);
    assert_eq!(db.collections.len(), 1);
    let b = bundle(
        &mut db,
        JsBundle {
            name: String::from("b"),
            items: vec![JsBundleItem { prefix: FsPath::new(), content: JsDependency::Transform { id: 0 } }],
        },
    )
    .unwrap();
    assert_eq!(db.bundle(b).unwrap().items[0].content, Input::Transform(Transform { id: 0 }));
    let none = bundle(
        &mut db,
        JsBundle {
            name: String::from("b"),
            items: vec![JsBundleItem { prefix: FsPath::new(), content: JsDependency::Toolchain { id: 0 } }],
        },
    );
    assert_eq!(none, None);
    let native = JsBinaryNative {
        executable: String::from("cc"),
        env: vec![(String::from("A"), String::from("B"))],
        args: vec![String::from("-c")],
    };
    let cc = binary(&mut db, JsBinary { name: String::from("cc"), runtime: JsBinaryRuntime::Native(native) });
    let kabina::BinaryRuntime::Native(n) = &db.binary(cc).unwrap().runtime;
    assert_eq!(n.executable, "cc");
    assert_eq!(n.args, vec![String::from("-c")]);
    let s = service(&mut db, &mut builder, JsService { name: String::from("s"), binary: cc.id });
    assert_eq!(db.service(s).unwrap().binary, cc);
    let w = server(&mut db, &mut builder, JsServer { name: String::from("w") });
    assert_eq!(db.server(w).unwrap().name, "w");
    let tool = toolchain(
        &mut db,
        JsToolchain { name: String::from("n"), binary: String::from("node"), runner: String::from("js") },
    );
    assert_eq!(db.toolchain(tool).unwrap().runner, "js");
    let schema = Schema::new(&mut db, String::new(), builder);
    let data = db.schema(schema).unwrap();
    assert_eq!(data.transforms, vec![t]);
    assert_eq!(data.collections, vec![c]);
    assert_eq!(data.services, vec![s]);
    assert_eq!(data.servers, vec![w]);
    assert!(data.binaries.is_empty());
}
