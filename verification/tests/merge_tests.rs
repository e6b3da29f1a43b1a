use mcmpmgr::errors::Error;
use mcmpmgr::merge::merge;
use mcmpmgr::merge::FileType;
use mcmpmgr::merge::Node;

fn key(k: &str, v: Node) -> (String, Node) {
    (String::from(k), v)
}

fn text(v: &str) -> Node {
    Node::Str(String::from(v))
}

/// The source tree shared by the merge tests:
/// `{a: 3, b: {x: {}, y: {test: "thing"}}, c: {}}`.
fn merge_src() -> Node {
    Node::Mapping(vec![
        key("a", Node::Int(3)),
        key(
            "b",
            Node::Mapping(vec![
                key("x", Node::Mapping(vec![])),
                key("y", Node::Mapping(vec![key("test", text("thing"))])),
            ]),
        ),
        key("c", Node::Mapping(vec![])),
    ])
}

/// The destination tree shared by the merge tests:
/// `{b: {y: {test: "something"}}, c: {foo: "bar"}}`.
fn merge_dst() -> Node {
    Node::Mapping(vec![
        key(
            "b",
            Node::Mapping(vec![key("y", Node::Mapping(vec![key("test", text("something"))]))]),
        ),
        key("c", Node::Mapping(vec![key("foo", text("bar"))])),
    ])
}

fn at<'a>(n: &'a Node, path: &[&str]) -> &'a Node {
    let mut cur = n;
    for k in path {
        cur = cur.get(k).expect("path should exist");
    }
    cur
}

fn is_str(n: &Node, v: &str) -> bool {
    match n {
        Node::Str(s) => s == v,
        _ => false,
    }
}

fn is_int(n: &Node, v: i64) -> bool {
    match n {
        Node::Int(x) => *x == v,
        _ => false,
    }
}

fn check_merged(src: &Node, merged_overwrite: &Node, merged_retained: &Node) {
    assert!(
        is_str(at(merged_overwrite, &["b", "y", "test"]), "thing"),
        "//b/y/test wasn't overwritten with \"thing\". src={:#?}, dst={:#?}",
        src,
        merged_overwrite
    );
    assert!(
        is_int(at(merged_overwrite, &["a"]), 3),
        "//a was not set to 3. src={:#?}, dst={:#?}",
        src,
        merged_overwrite
    );
    assert!(
        at(merged_overwrite, &["b", "x"]).is_mapping(),
        "//b/x is not an object. src={:#?}, dst={:#?}",
        src,
        merged_overwrite
    );
    assert!(
        is_str(at(merged_overwrite, &["c", "foo"]), "bar"),
        "//c/foo != bar. src={:#?}, dst={:#?}",
        src,
        merged_overwrite
    );

    assert!(
        is_str(at(merged_retained, &["b", "y", "test"]), "something"),
        "//b/y/test was overwritten. src={:#?}, dst={:#?}",
        src,
        merged_retained
    );
    assert!(
        is_int(at(merged_retained, &["a"]), 3),
        "//a was not set to 3. src={:#?}, dst={:#?}",
        src,
        merged_retained
    );
    assert!(
        at(merged_retained, &["b", "x"]).is_mapping(),
        "//b/x is not an object. src={:#?}, dst={:#?}",
        src,
        merged_retained
    );
    assert!(
        is_str(at(merged_retained, &["c", "foo"]), "bar"),
        "//c/foo != bar. src={:#?}, dst={:#?}",
        src,
        merged_retained
    );
}

#[test]
fn test_merge_json() {
    let src = merge_src();
    let dst = merge_dst();
    let merged_overwrite = merge(&src, &dst, true).unwrap();
    let merged_retained = merge(&src, &dst, false).unwrap();
    check_merged(&src, &merged_overwrite, &merged_retained);
}

#[test]
fn test_merge_yaml() {
    let src = merge_src();
    let dst = merge_dst();
    let merged_overwrite = merge(&src, &dst, true).unwrap();
    let merged_retained = merge(&src, &dst, false).unwrap();
    check_merged(&src, &merged_overwrite, &merged_retained);
}

#[test]
fn test_merge_toml() {
    let src = merge_src();
    let dst = merge_dst();
    let merged_overwrite = merge(&src, &dst, true).unwrap();
    let merged_retained = merge(&src, &dst, false).unwrap();
    check_merged(&src, &merged_overwrite, &merged_retained);
}

#[test]
fn merge_is_idempotent_without_overwrite() {
    let src = merge_src();
    let dst = merge_dst();
    let once = merge(&src, &dst, false).unwrap();
    let twice = merge(&src, &once, false).unwrap();
    assert!(is_str(at(&twice, &["b", "y", "test"]), "something"));
    assert!(is_int(at(&twice, &["a"]), 3));
    assert!(is_str(at(&twice, &["c", "foo"]), "bar"));
    assert!(format!("{:?}", once) == format!("{:?}", twice));
}

#[test]
fn merge_rejects_non_mappings() {
    let src = Node::Int(1);
    let dst = merge_dst();
    let r = merge(&src, &dst, true);
    assert!(matches!(r, Err(Error::StructuralMismatch)));
    let r2 = merge(&merge_src(), &Node::Str(String::from("leaf")), false);
    assert!(matches!(r2, Err(Error::StructuralMismatch)));
}

#[test]
fn merge_rejects_mapping_over_leaf() {
    let src = Node::Mapping(vec![key("a", Node::Mapping(vec![]))]);
    let dst = Node::Mapping(vec![key("a", Node::Int(1))]);
    let r = merge(&src, &dst, true);
    assert!(matches!(r, Err(Error::StructuralMismatch)));
}

#[test]
fn merge_keeps_destination_only_keys() {
    let src = Node::Mapping(vec![key("a", Node::Int(1))]);
    let dst = Node::Mapping(vec![key("z", text("kept"))]);
    let merged = merge(&src, &dst, true).unwrap();
    assert!(is_str(at(&merged, &["z"]), "kept"));
    assert!(is_int(at(&merged, &["a"]), 1));
}

#[test]
fn file_type_parse_recognizes_known_formats() {
    assert!(matches!(FileType::parse("config.json"), Ok(FileType::Json)));
    assert!(matches!(FileType::parse("settings.toml"), Ok(FileType::Toml)));
    assert!(matches!(FileType::parse("foo.yaml"), Ok(FileType::Yaml)));
    assert!(matches!(FileType::parse("foo.yml"), Ok(FileType::Yaml)));
    let e = FileType::parse("image.png");
    assert!(matches!(e, Err(Error::UnmergeableFileType { text }) if text == "image.png"));
}
