use kabina::{
    extract_dependencies, extract_dependencies_from_object, replace_dependencies,
    replace_dependencies_in_object, Binary, BinaryRuntimeResolved, Dependency, File, FileGroup,
    FsPath, Input, Number, Resolutions, ResolvedDependency, Transform, Value,
};

fn text(s: &str) -> Value {
    Value::String(String::from(s))
}

fn uint(n: u64) -> Value {
    Value::Number(Number::PosInt(n))
}

fn object(fields: Vec<(&str, Value)>) -> Value {
    Value::Object(fields.into_iter().map(|(k, v)| (String::from(k), v)).collect())
}

fn reference(kind: &str, id: u64) -> Value {
    object(vec![("kind", text(kind)), ("id", uint(id))])
}

fn group(id: usize) -> Dependency {
    Dependency::FileGroup(FileGroup { id })
}

fn transform(id: usize) -> Dependency {
    Dependency::Transform(Transform { id })
}

fn toolchain(id: usize) -> Dependency {
    Dependency::Toolchain(Binary { id })
}

fn extracted(v: &Value) -> Vec<Dependency> {
    let mut buffer = Vec::new();
    extract_dependencies(v, &mut buffer);
    buffer
}

fn native(path: &str) -> BinaryRuntimeResolved {
    BinaryRuntimeResolved::Native {
        executable: String::from(path),
        env: vec![(String::from("kind"), String::from("FileGroup")), (String::from("id"), String::from("3"))],
        args: vec![String::from("--fast")],
    }
}

#[test]
fn input_kinds() {
    assert_eq!(group(3).to_input_kind(), Some(Input::FileGroup(FileGroup { id: 3 })));
    assert_eq!(transform(4).to_input_kind(), Some(Input::Transform(Transform { id: 4 })));
    assert_eq!(toolchain(5).to_input_kind(), None);
}

#[test]
fn references_are_found_depth_first_from_left_to_right() {
    let v = object(vec![
        ("first", Value::Array(vec![reference("Transform", 2), text("x"), reference("FileGroup", 1)])),
        ("second", object(vec![("deep", object(vec![("tool", reference("Toolchain", 7))]))])),
        ("third", reference("FileGroup", 0)),
    ]);
    assert_eq!(extracted(&v), vec![transform(2), group(1), toolchain(7), group(0)]);
}

#[test]
fn a_reference_is_found_once() {
    let v = Value::Array(vec![
        reference("FileGroup", 1),
        reference("Transform", 1),
        reference("FileGroup", 1),
        reference("Toolchain", 1),
        reference("Transform", 1),
    ]);
    assert_eq!(extracted(&v), vec![group(1), transform(1), toolchain(1)]);
    let mut buffer = vec![toolchain(1)];
    extract_dependencies(&v, &mut buffer);
    assert_eq!(buffer, vec![toolchain(1), group(1), transform(1)]);
}

#[test]
fn nothing_inside_a_reference_is_looked_at() {
    let v = object(vec![
        ("kind", text("FileGroup")),
        ("id", uint(4)),
        ("extra", reference("Transform", 9)),
    ]);
    assert_eq!(extracted(&v), vec![group(4)]);
}

#[test]
fn what_has_not_the_shape_of_a_reference_is_walked() {
    let unknown_kind = object(vec![("kind", text("Server")), ("id", reference("Toolchain", 1))]);
    assert_eq!(extracted(&unknown_kind), vec![toolchain(1)]);
    let no_id = object(vec![("kind", text("FileGroup")), ("inner", reference("FileGroup", 2))]);
    assert_eq!(extracted(&no_id), vec![group(2)]);
    let text_id = object(vec![("kind", text("FileGroup")), ("id", text("2"))]);
    assert_eq!(extracted(&text_id), vec![]);
    let negative = object(vec![("kind", text("FileGroup")), ("id", Value::Number(Number::NegInt(-2)))]);
    assert_eq!(extracted(&negative), vec![]);
    let kind_no_text = object(vec![("kind", uint(1)), ("id", uint(2))]);
    assert_eq!(extracted(&kind_no_text), vec![]);
    assert_eq!(extracted(&Value::Null), vec![]);
    assert_eq!(extracted(&text("FileGroup")), vec![]);
}

#[test]
fn the_first_field_with_a_key_counts() {
    let v = object(vec![("kind", text("Transform")), ("kind", text("FileGroup")), ("id", uint(1))]);
    assert_eq!(extracted(&v), vec![transform(1)]);
}

#[test]
fn extraction_from_the_fields_of_an_object() {
    let Value::Object(fields) = reference("Toolchain", 3) else { panic!("an object") };
    let mut buffer = Vec::new();
    extract_dependencies_from_object(&fields, &mut buffer);
    assert_eq!(buffer, vec![toolchain(3)]);
    let Value::Object(fields) = object(vec![("a", reference("FileGroup", 1)), ("b", uint(2))]) else {
        panic!("an object")
    };
    extract_dependencies_from_object(&fields, &mut buffer);
    assert_eq!(buffer, vec![toolchain(3), group(1)]);
}

#[test]
fn a_resolved_binary_as_a_value() {
    let value = ResolvedDependency::Binary(native("/usr/bin/cc")).to_value();
    let expected = object(vec![(
        "Binary",
        object(vec![(
            "Native",
            object(vec![
                ("executable", text("/usr/bin/cc")),
                ("env", object(vec![("kind", text("FileGroup")), ("id", text("3"))])),
                ("args", Value::Array(vec![text("--fast")])),
            ]),
        )]),
    )]);
    assert_eq!(value, expected);
    assert_eq!(extracted(&value), vec![]);
}

#[test]
fn resolved_files_as_a_value() {
    let files = vec![
        File { path: FsPath::parse("/p/a.txt"), revision: 5 },
        File { path: FsPath::parse("b.txt"), revision: 6 },
    ];
    let value = ResolvedDependency::Files(files).to_value();
    let expected = object(vec![(
        "Files",
        Value::Array(vec![
            object(vec![("path", text("/p/a.txt")), ("revision", uint(5))]),
            object(vec![("path", text("b.txt")), ("revision", uint(6))]),
        ]),
    )]);
    assert_eq!(value, expected);
}

#[test]
fn substitution_round_trip() {
    let mut v = object(vec![
        ("name", text("build")),
        ("tool", reference("Toolchain", 7)),
        ("inputs", Value::Array(vec![reference("FileGroup", 1), uint(3), reference("Toolchain", 7)])),
        ("flags", object(vec![("kind", text("none")), ("level", Value::Number(Number::Float(0x4008_0000_0000_0000)))])),
    ]);
    let found = extracted(&v);
    assert_eq!(found, vec![toolchain(7), group(1)]);
    let mut resolved = Resolutions::new();
    resolved.insert(toolchain(7), ResolvedDependency::Binary(native("/bin/tool")));
    resolved.insert(
        group(1),
        ResolvedDependency::Files(vec![File { path: FsPath::parse("/p/a"), revision: 1 }]),
    );
    replace_dependencies(&mut v, &resolved);
    assert_eq!(extracted(&v), vec![]);
    let tool = ResolvedDependency::Binary(native("/bin/tool")).to_value();
    let files =
        ResolvedDependency::Files(vec![File { path: FsPath::parse("/p/a"), revision: 1 }]).to_value();
    let expected = object(vec![
        ("name", text("build")),
        ("tool", tool.clone()),
        ("inputs", Value::Array(vec![files, uint(3), tool])),
        ("flags", object(vec![("kind", text("none")), ("level", Value::Number(Number::Float(0x4008_0000_0000_0000)))])),
    ]);
    assert_eq!(v, expected);
}

#[test]
fn substitution_leaves_plain_values_alone() {
    let plain = object(vec![("a", Value::Array(vec![Value::Null, Value::Bool(true), uint(1)])), ("b", text("c"))]);
    let mut v = plain.clone();
    replace_dependencies(&mut v, &Resolutions::new());
    assert_eq!(v, plain);
}

#[test]
fn a_later_resolution_replaces_an_earlier_one() {
    let mut resolved = Resolutions::new();
    resolved.insert(toolchain(1), ResolvedDependency::Binary(native("/old")));
    resolved.insert(toolchain(1), ResolvedDependency::Binary(native("/new")));
    assert_eq!(resolved.get(toolchain(1)), Some(&ResolvedDependency::Binary(native("/new"))));
    assert_eq!(resolved.get(toolchain(2)), None);
    let mut v = reference("Toolchain", 1);
    replace_dependencies(&mut v, &resolved);
    assert_eq!(v, ResolvedDependency::Binary(native("/new")).to_value());
}

#[test]
fn substitution_in_the_fields_of_an_object() {
    let mut resolved = Resolutions::new();
    resolved.insert(toolchain(1), ResolvedDependency::Binary(native("/bin/x")));
    let Value::Object(mut fields) = reference("Toolchain", 1) else { panic!("an object") };
    let before = fields.clone();
    let replaced = replace_dependencies_in_object(&mut fields, &resolved);
    assert_eq!(replaced, Some(ResolvedDependency::Binary(native("/bin/x")).to_value()));
    assert_eq!(fields, before);
    let Value::Object(mut fields) = object(vec![("t", reference("Toolchain", 1)), ("n", uint(2))]) else {
        panic!("an object")
    };
    assert_eq!(replace_dependencies_in_object(&mut fields, &resolved), None);
    assert_eq!(
        Value::Object(fields),
        object(vec![("t", ResolvedDependency::Binary(native("/bin/x")).to_value()), ("n", uint(2))])
    );
}

#[test]
fn substitution_that_checks_first() {
    let mut resolved = Resolutions::new();
    resolved.insert(toolchain(1), ResolvedDependency::Binary(native("/bin/x")));
    let before = Value::Array(vec![reference("Toolchain", 1), reference("FileGroup", 2), reference("Transform", 3)]);
    let mut v = before.clone();
    assert_eq!(kabina::try_replace_dependencies(&mut v, &resolved), Some(group(2)));
    assert_eq!(v, before);
    let mut v = Value::Array(vec![reference("Toolchain", 1), uint(4)]);
    assert_eq!(kabina::try_replace_dependencies(&mut v, &resolved), None);
    assert_eq!(
        v,
        Value::Array(vec![ResolvedDependency::Binary(native("/bin/x")).to_value(), uint(4)])
    );
}
