use snap::paths::{check_rel, components, file_stem, is_self_path, join_rel, norm_key, rel_posix};
use snap::store::{head_from_text, next_seq_from, sort_versions, Repo, Version};
use snap::tree::Tree;

#[test]
fn joining_and_relative_paths() {
    assert_eq!(join_rel("/w", "a/b.txt"), "/w/a/b.txt");
    assert_eq!(join_rel("/w/", "x"), "/w/x");
    assert_eq!(components("/a//b/./c/", false), vec!["/", "a", "b", "c"]);
    assert_eq!(components("./a", false), vec![".", "a"]);
    assert_eq!(rel_posix("/w", "/w/d/e.txt", false), Some("d/e.txt".to_string()));
    assert_eq!(rel_posix("/w", "/x/e.txt", false), None);
    assert_eq!(rel_posix("/w", "/w", false), Some(String::new()));
    assert_eq!(file_stem("/a/b/snap.exe", false), Some("snap".to_string()));
    assert_eq!(file_stem("/", false), None);
    assert_eq!(norm_key("a/B", false), "a\\B");
    assert_eq!(norm_key("a/B", true), "a\\b");
}

#[test]
fn windows_paths() {
    assert_eq!(components("C:\\proj\\a/b.txt", true), vec!["C:", "\\", "proj", "a", "b.txt"]);
    assert_eq!(components("C:x\\y", true), vec!["C:", "x", "y"]);
    assert_eq!(components("C:\\proj", false), vec!["C:\\proj"]);
    assert_eq!(file_stem("C:\\snap\\snap.exe", true), Some("snap".to_string()));
    assert_eq!(file_stem("C:", true), None);
    assert_eq!(file_stem("C:\\", true), None);
    assert_eq!(rel_posix("C:\\proj", "C:\\proj\\a\\b.txt", true), Some("a/b.txt".to_string()));
    assert_eq!(rel_posix("c:\\proj", "C:/proj/x", true), Some("x".to_string()));
    assert_eq!(rel_posix("C:\\proj", "D:\\proj\\x", true), None);
    assert_eq!(rel_posix("C:\\Proj", "C:\\proj\\x", true), None);
    assert_eq!(rel_posix("C:\\proj", "C:\\proj\\a\\b.txt", false), None);
    assert!(check_rel("C:/x", true).is_err());
    assert!(check_rel("C:\\x", true).is_err());
    assert!(check_rel("C:x", true).is_ok());
    assert!(check_rel("C:/x", false).is_ok());
}

#[test]
fn joined_paths_come_back() {
    for (root, rel, win) in [
        ("/w", "a/b.txt", false),
        ("/w/", "中文 文件.txt", false),
        ("C:\\proj", "d/e.txt", true),
        ("C:\\proj\\", "x", true),
        ("\\\\server\\share", "a/../b", true),
    ] {
        assert_eq!(rel_posix(root, &join_rel(root, rel), win), Some(rel.to_string()));
    }
}

#[test]
fn paths_are_checked_before_use() {
    assert_eq!(check_rel("", false).unwrap_err().message(), "版本里的路径非法: \"\"");
    assert_eq!(check_rel("/etc/passwd", false).unwrap_err().message(), "版本里的路径越界: \"/etc/passwd\"");
    assert_eq!(check_rel("a/../../x", false).unwrap_err().message(), "版本里的路径越界: \"a/../../x\"");
    assert_eq!(check_rel("a\\..\\x", false).unwrap_err().message(), "版本里的路径越界: \"a\\\\..\\\\x\"");
    assert!(check_rel("a/..b/c", false).is_ok());
    assert!(check_rel("中文 文件.txt", false).is_ok());
}

#[test]
fn running_program_excludes_itself() {
    assert!(is_self_path("/w", "snap.exe", Some("/w/snap.exe"), false));
    assert!(!is_self_path("/w", "keep.txt", Some("/w/snap.exe"), false));
    assert!(!is_self_path("/w", "sub/snap.exe", Some("/w/snap.exe"), false));
    assert!(!is_self_path("/w", "snap.exe", None, false));
    assert!(is_self_path("/W", "Snap.EXE", Some("/w/Snap.EXE"), true));
    assert!(is_self_path("C:\\proj", "snap.exe", Some("C:\\proj\\snap.exe"), true));
    assert!(is_self_path("c:\\Proj", "snap.EXE", Some("C:\\proj\\snap.EXE"), true));
    // the file name itself is compared with its case, as the program's own name is
    assert!(!is_self_path("C:\\proj", "SNAP.exe", Some("C:\\proj\\snap.exe"), true));
    assert!(!is_self_path("C:\\proj", "sub/snap.exe", Some("C:\\proj\\snap.exe"), true));
    assert!(!is_self_path("C:\\proj", "keep.txt", Some("C:\\proj\\snap.exe"), true));
}

#[test]
fn repository_layout() {
    let r = Repo { root: "/w".to_string(), dir: ".snap".to_string() };
    assert_eq!(r.data_path(&["objects"]), "/w/.snap/objects");
    assert_eq!(r.head_path(), "/w/.snap/HEAD");
    assert_eq!(r.version_path("0123456789ab"), "/w/.snap/versions/0123456789ab.json");
    assert_eq!(
        r.object_path("abcdef0123"),
        "/w/.snap/objects/ab/cdef0123"
    );
    assert_eq!(r.work_path("d/f.txt"), "/w/d/f.txt");
}

#[test]
fn head_and_counter_text() {
    assert_eq!(head_from_text("  0123456789ab\n"), Some("0123456789ab".to_string()));
    assert_eq!(head_from_text(" \n"), None);
    assert_eq!(next_seq_from(None), 1);
    assert_eq!(next_seq_from(Some("41\n")), 42);
    assert_eq!(next_seq_from(Some("junk")), 1);
    assert_eq!(next_seq_from(Some("-7")), -6);
    assert_eq!(next_seq_from(Some("+7")), 8);
    assert_eq!(next_seq_from(Some("9223372036854775807")), i64::MIN);
    assert_eq!(next_seq_from(Some("9223372036854775808")), 1);
}

fn v(id: &str, time: i64, seq: i64) -> Version {
    Version { id: id.into(), parents: vec![], tree: Tree::new(), message: String::new(), time, seq }
}

#[test]
fn versions_in_order() {
    let sorted = sort_versions(vec![v("c", 5, 2), v("b", 9, 1), v("a", 9, 1), v("d", 1, 3)]);
    let ids: Vec<&str> = sorted.iter().map(|x| x.id.as_str()).collect();
    assert_eq!(ids, vec!["a", "b", "c", "d"]);
}

#[test]
fn loading_a_version_file() {
    let r = Repo { root: "/w".to_string(), dir: ".snap".to_string() };
    let text = r#"{"message": "m", "parents": ["p1", 3], "seq": 4, "time": 9,
        "tree": {"a\\b.txt": "h1", "n": 5, "snap.exe": "h2", "z": "h3"}}"#;
    let ver = r.load_version("vid", text, Some("/w/snap.exe"), false).unwrap();
    assert_eq!(ver.id, "vid");
    assert_eq!(ver.parents, vec!["p1".to_string()]);
    assert_eq!(ver.message, "m");
    assert_eq!((ver.time, ver.seq), (9, 4));
    assert_eq!(ver.tree.len(), 2);
    assert_eq!(ver.tree.get("a/b.txt"), Some(&"h1".to_string()));
    assert_eq!(ver.tree.get("z"), Some(&"h3".to_string()));
    assert!(!ver.tree.contains_key("snap.exe"));

    let defaults = r.load_version("v2", r#"{"tree": {}}"#, None, false).unwrap();
    assert!(defaults.parents.is_empty());
    assert_eq!((defaults.message.as_str(), defaults.time, defaults.seq), ("", 0, 0));

    let missing = r.load_version("v3", r#"{"parents": []}"#, None, false).unwrap_err();
    assert_eq!(missing.message(), "版本文件损坏: v3 (缺少 tree 字段)");
    let broken = r.load_version("v4", "{ nope", None, false).unwrap_err();
    assert!(broken.message().starts_with("版本文件损坏: v4 ("), "{}", broken.message());
}

#[test]
fn ignore_rules_from_file_text() {
    let r = Repo { root: "/w".to_string(), dir: ".snap".to_string() };
    let p = r.load_ignore(Some("logs/\r\ncache/\n*.log\n"));
    assert_eq!(p.len(), 12);
    let p = r.load_ignore(None);
    assert_eq!(p.len(), 9);
}

#[test]
fn version_file_reads_back() {
    let r = Repo { root: "/w".to_string(), dir: ".snap".to_string() };
    let mut t = Tree::new();
    t.insert("中文 文件.txt".to_string(), "h1".to_string());
    t.insert("a/\"q\".txt".to_string(), "h2".to_string());
    let v = Version {
        id: "0123456789ab".into(),
        parents: vec!["p\\1".into()],
        tree: t,
        message: "说明\n第二行\t\u{1}".into(),
        time: 1_700_000_000,
        seq: 12,
    };
    let text = snap::store::version_json(&v);
    let back = r.load_version("0123456789ab", &text, None, false).unwrap();
    assert_eq!(back.parents, v.parents);
    assert_eq!(back.message, v.message);
    assert_eq!((back.time, back.seq), (v.time, v.seq));
    assert_eq!(back.tree.len(), 2);
    assert_eq!(back.tree.get("中文 文件.txt"), Some(&"h1".to_string()));
    assert_eq!(back.tree.get("a/\"q\".txt"), Some(&"h2".to_string()));
}

#[test]
fn data_directory_names() {
    assert_eq!(snap::store::data_dir_here(&[true, true]), Some(".snap".to_string()));
    assert_eq!(snap::store::data_dir_here(&[false, true]), Some(".vsnap".to_string()));
    assert_eq!(snap::store::data_dir_here(&[false, false]), None);
}
