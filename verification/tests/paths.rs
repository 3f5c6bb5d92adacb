use kabina::FsPath;

fn parts(p: &FsPath) -> Vec<&str> {
    p.parts.iter().map(|s| s.as_str()).collect()
}

#[test]
fn parse_splits_on_separators() {
    assert_eq!(parts(&FsPath::parse("/a/b")), vec!["/", "a", "b"]);
    assert_eq!(parts(&FsPath::parse("a//b/")), vec!["a", "b"]);
    assert_eq!(parts(&FsPath::parse("")), Vec::<&str>::new());
    assert_eq!(parts(&FsPath::parse("/")), vec!["/"]);
}

#[test]
fn text_of_a_path() {
    assert_eq!(FsPath::parse("/a/b").to_text(), "/a/b");
    assert_eq!(FsPath::parse("a/b/").to_text(), "a/b");
    assert_eq!(FsPath::parse("/").to_text(), "/");
    assert_eq!(FsPath::new().to_text(), "");
}

#[test]
fn prefixes_are_whole_components() {
    let ab = FsPath::parse("/a/b");
    assert!(ab.starts_with(&FsPath::parse("/a")));
    assert!(ab.starts_with(&FsPath::new()));
    assert!(!FsPath::parse("/ab").starts_with(&FsPath::parse("/a")));
    assert_eq!(ab.strip_prefix(&FsPath::parse("/a")), Some(FsPath::parse("b")));
    assert_eq!(ab.strip_prefix(&FsPath::parse("/b")), None);
}

#[test]
fn join_appends_or_replaces() {
    assert_eq!(FsPath::parse("a").join(&FsPath::parse("b/c")), FsPath::parse("a/b/c"));
    assert_eq!(FsPath::parse("a").join(&FsPath::parse("/b")), FsPath::parse("/b"));
}

#[test]
fn the_order_of_paths() {
    let before = |a: &str, b: &str| FsPath::parse(a).before(&FsPath::parse(b));
    assert!(before("/a", "/a/b"));
    assert!(!before("/a/b", "/a"));
    assert!(!before("/a", "/a"));
    assert!(before("/a/b", "/b"));
    assert!(before("a", "b"));
    assert!(before("a", "ab"));
    assert!(before("ab", "b"));
    assert!(before("", "a"));
    assert!(!before("", ""));
    assert!(before("/a", "-x"));
    assert!(before("/z", "a"));
    assert!(before(".", ".."));
    assert!(before("..", "-"));
    assert!(before("./z", "-"));
    assert!(before("a/é", "a/ü"));
    assert!(before("a/z", "a/é"));
}
