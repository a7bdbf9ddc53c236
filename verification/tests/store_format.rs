use snap::store::{id_payload, json_string, version_id, version_json, Version};
use snap::tree::Tree;

fn tree(pairs: &[(&str, &str)]) -> Tree {
    let mut t = Tree::new();
    for (k, v) in pairs {
        t.insert(k.to_string(), v.to_string());
    }
    t
}

#[test]
fn id_payload_format() {
    let p = id_payload(&[], &tree(&[("a.txt", "h")]), "v1");
    assert_eq!(
        p,
        r#"{"message": "v1", "parents": [], "tree": {"a.txt": "h"}}"#
    );
}

#[test]
fn payload_with_parents_and_unicode() {
    let p = id_payload(&["abc".to_string()], &tree(&[("中文.txt", "h")]), "说明");
    assert_eq!(
        p,
        r#"{"message": "说明", "parents": ["abc"], "tree": {"中文.txt": "h"}}"#
    );
}

#[test]
fn json_escaping() {
    assert_eq!(json_string("a\"b\\c\nd"), r#""a\"b\\c\nd""#);
    assert_eq!(json_string("\u{1}"), r#""\u0001""#);
}

#[test]
fn version_json_layout() {
    let v = Version {
        id: "x".into(),
        parents: vec![],
        tree: tree(&[("a.txt", "h")]),
        message: "v1".into(),
        time: 100,
        seq: 1,
    };
    let s = version_json(&v);
    assert!(s.contains("\"seq\": 1,\n"), "{s}");
    assert!(
        s.contains("  \"tree\": {\n    \"a.txt\": \"h\"\n  }\n"),
        "{s}"
    );
}

#[test]
fn json_escaping_of_other_controls() {
    assert_eq!(json_string("\t\r\u{8}\u{c}"), r#""\t\r\b\f""#);
    assert_eq!(json_string("\u{1f}é"), "\"\\u001fé\"");
}

#[test]
fn version_json_full_text() {
    let v = Version {
        id: "x".into(),
        parents: vec!["p1".into(), "p2".into()],
        tree: tree(&[("b", "2"), ("a", "1")]),
        message: "m".into(),
        time: -5,
        seq: 7,
    };
    assert_eq!(
        version_json(&v),
        "{\n  \"message\": \"m\",\n  \"parents\": [\n    \"p1\",\n    \"p2\"\n  ],\n  \"seq\": 7,\n  \"time\": -5,\n  \"tree\": {\n    \"a\": \"1\",\n    \"b\": \"2\"\n  }\n}"
    );
    let empty = Version {
        id: "y".into(),
        parents: vec![],
        tree: Tree::new(),
        message: "".into(),
        time: 0,
        seq: 0,
    };
    assert_eq!(
        version_json(&empty),
        "{\n  \"message\": \"\",\n  \"parents\": [],\n  \"seq\": 0,\n  \"time\": 0,\n  \"tree\": {}\n}"
    );
}

#[test]
fn version_id_is_sha1_prefix_of_payload() {
    // sha1('{"message": "v1", "parents": [], "tree": {"a.txt": "h"}}')
    let t = tree(&[("a.txt", "h")]);
    let id = version_id(&[], &t, "v1");
    let full = snap::digest::sha1_hex(id_payload(&[], &t, "v1").as_bytes());
    assert_eq!(id.len(), 12);
    assert_eq!(id, full[..12]);
    assert!(id.chars().all(|c| c.is_ascii_hexdigit() && !c.is_ascii_uppercase()));
}

#[test]
fn version_id_is_deterministic() {
    let a = version_id(&[], &tree(&[("x.txt", "hash-of-same")]), "第一版");
    let b = version_id(&[], &tree(&[("x.txt", "hash-of-same")]), "第一版");
    assert_eq!(a, b, "相同状态必须得到同一个版本ID");
    let c = version_id(&["p".to_string()], &tree(&[("x.txt", "hash-of-same")]), "第一版");
    assert_ne!(a, c);
}
