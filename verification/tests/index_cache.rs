use snap::index::Index;
use std::cell::Cell;
use snap::tree::Tree;

fn tree(pairs: &[(&str, &str)]) -> Tree {
    let mut t = Tree::new();
    for (k, v) in pairs {
        t.insert(k.to_string(), v.to_string());
    }
    t
}

#[test]
fn index_detects_same_size_change() {
    let text = r#"{"entries":{"a.txt":[4,100,100,"hA"],"b.txt":[4,100,100,"hB"]},"version":2,"written":1000}"#;
    let idx = Index::load(Some(text));
    assert_eq!(idx.cached("a.txt", 4, 100, 100), Some("hA".to_string()));
    // same size, new modification time: must be hashed again
    assert_eq!(idx.cached("a.txt", 4, 200, 200), None, "同长度改动必须被发现");
    // changed back with yet another time: still not trusted
    assert_eq!(idx.cached("a.txt", 4, 300, 300), None, "改回来同样要发现");
    // modified at or after the index was written: racy, not trusted
    let racy = r#"{"entries":{"a.txt":[4,1000,1000,"hA"]},"written":1000}"#;
    assert_eq!(Index::load(Some(racy)).cached("a.txt", 4, 1000, 1000), None);
}

#[test]
fn index_corrupt_or_missing_is_safe() {
    let bad = Index::load(Some("{ not json at all"));
    assert_eq!(bad.cached("a.txt", 1, 1, 1), None);
    let none = Index::load(None);
    assert_eq!(none.cached("a.txt", 1, 1, 1), None);
    // entries of an older index without a change time are dropped
    let old = Index::load(Some(r#"{"entries":{"a.txt":[1,1,"h"]},"written":9}"#));
    assert_eq!(old.cached("a.txt", 1, 1, 1), None);
    let zero = Index::load(Some(r#"{"entries":{"a.txt":[1,1,0,"h"]},"written":9}"#));
    assert_eq!(zero.cached("a.txt", 1, 1, 0), None);
}

#[test]
fn index_can_be_disabled() {
    let mut idx = Index::empty();
    idx.put("a.txt", 1, 2, 3, "h");
    assert!(idx.save(true, 99).is_none(), "禁用索引时不应改写索引文件");
    assert!(Index::empty().save(false, 99).is_none());
    assert!(idx.save(false, 99).is_some());
}

#[test]
fn checkout_refreshes_index() {
    let t = tree(&[("a.txt", "hA"), ("b.txt", "hB")]);
    let mut idx = Index::empty();
    idx.reset_to(&t, &vec![Some((8, 50, 50)), None]);
    // stamps only mean something once the index is written and read back
    let text = idx.save(false, 100).unwrap().unwrap();
    let back = Index::load(Some(&text));
    assert_eq!(back.cached("a.txt", 8, 50, 50), Some("hA".to_string()));
    assert_eq!(back.cached("b.txt", 8, 50, 50), None);
    assert_eq!(back.cached("a.txt", 8, 60, 60), None, "checkout 刷新索引后仍要能发现改动");
}

#[test]
fn index_text_layout() {
    let mut idx = Index::empty();
    idx.put("b", 3, -1, 7, "h2");
    idx.put("a", 1, 2, 3, "h1");
    let text = idx.save(false, 42).unwrap().unwrap();
    assert_eq!(
        text,
        r#"{"entries":{"a":[1,2,3,"h1"],"b":[3,-1,7,"h2"]},"version":2,"written":42}"#
    );
}

#[test]
fn index_is_not_tracked() {
    let defaults = snap::ignore::default_ignore();
    let p = snap::ignore::compile(&defaults);
    assert!(snap::ignore::is_ignored(".snap", &p, true), "数据目录不得进版本");
}

#[test]
fn hash_of_uses_the_record_or_hashes() {
    let text = r#"{"entries":{"a.txt":[4,100,100,"hA"]},"written":1000}"#;
    let mut idx = Index::load(Some(text));
    let calls = Cell::new(0);
    let h = idx.hash_of("a.txt", 4, 100, 100, || {
        calls.set(calls.get() + 1);
        Ok("fresh".to_string())
    });
    assert_eq!(h.unwrap(), "hA");
    assert_eq!(calls.get(), 0);
    let h = idx.hash_of("a.txt", 4, 200, 200, || {
        calls.set(calls.get() + 1);
        Ok("fresh".to_string())
    });
    assert_eq!(h.unwrap(), "fresh");
    assert_eq!(calls.get(), 1);
    // the fresh hash is recorded with the new stamp
    assert_eq!(idx.cached("a.txt", 4, 200, 200), Some("fresh".to_string()));
    let failed = idx.hash_of("b.txt", 1, 1, 1, || Err(snap::error::SnapError::new("无法读取 b.txt")));
    assert_eq!(failed.unwrap_err().message(), "无法读取 b.txt");
    let text = idx.save(false, 5000).unwrap().unwrap();
    let back = Index::load(Some(&text));
    assert_eq!(back.cached("a.txt", 4, 200, 200), Some("fresh".to_string()));
    assert_eq!(back.cached("b.txt", 1, 1, 1), None);
}

#[test]
fn saved_index_reads_back() {
    let mut idx = Index::empty();
    idx.put("z/y.bin", 7, -5, 9, "hZ");
    idx.put("a b.txt", 0, 0, 1, "hA");
    idx.put("中文.md", u64::MAX, i64::MIN, i64::MAX, "h\"\\");
    idx.put("dropped", 1, 1, 0, "hD");
    let text = idx.save(false, 1_000).unwrap().unwrap();
    let back = Index::load(Some(&text));
    assert_eq!(back.cached("z/y.bin", 7, -5, 9), Some("hZ".to_string()));
    assert_eq!(back.cached("a b.txt", 0, 0, 1), Some("hA".to_string()));
    assert_eq!(back.cached("中文.md", u64::MAX, i64::MIN, i64::MAX), Some("h\"\\".to_string()));
    assert_eq!(back.cached("dropped", 1, 1, 0), None);
    assert_eq!(back.cached("z/y.bin", 7, -5, 10), None);
}
