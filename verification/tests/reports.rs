use snap::report::{
    diff_report, gc_summary, help_doc_action, is_referenced, is_temp_object, list_report,
    referenced, save_step, show_report, status_head_line, status_report, DocAction,
};
use snap::store::{Repo, Version};
use snap::tree::Tree;

fn tree(pairs: &[(&str, &str)]) -> Tree {
    let mut t = Tree::new();
    for (k, v) in pairs {
        t.insert(k.to_string(), v.to_string());
    }
    t
}

fn version(id: &str, parents: &[&str], t: Tree, msg: &str, time: i64, seq: i64) -> Version {
    Version {
        id: id.to_string(),
        parents: parents.iter().map(|s| s.to_string()).collect(),
        tree: t,
        message: msg.to_string(),
        time,
        seq,
    }
}

#[test]
fn status_reports_three_states() {
    let base = tree(&[("a.txt", "hA"), ("b.txt", "hB")]);
    let cur = tree(&[("a.txt", "hA2"), ("c.txt", "hC")]);
    let v1 = version("0123456789ab", &[], base.clone(), "v1", 1, 1);
    let head = status_head_line(Some(&v1));
    assert_eq!(head, "当前版本: 0123456789ab  v1");
    assert_eq!(status_head_line(None), "当前版本: (无)");
    let lines = status_report(&base, &cur);
    assert_eq!(
        lines,
        vec!["新增:", "  + c.txt", "修改:", "  M a.txt", "删除:", "  - b.txt"]
    );
    let clean = status_report(&cur, &cur);
    assert_eq!(clean, vec!["工作区干净"]);
}

#[test]
fn diff_between_version_and_workspace() {
    let t1 = tree(&[("a.txt", "hA")]);
    let ws = tree(&[("a.txt", "hA2"), ("new.txt", "hN")]);
    let o = diff_report("0123456789ab", &t1, "工作区", &ws);
    assert_eq!(
        o,
        vec!["--- 0123456789ab", "+++ 工作区", "  + new.txt", "  M a.txt"]
    );
    let same = diff_report("0123456789ab", &t1, "0123456789ab", &t1);
    assert!(same.contains(&"  (无差异)".to_string()), "{same:?}");
    let gone = diff_report("x", &ws, "y", &t1);
    assert_eq!(gone, vec!["--- x", "+++ y", "  M a.txt", "  - new.txt"]);
}

#[test]
fn list_marks_head_and_show_resolves_prefix() {
    let v1 = version("aaaaaa111111", &[], tree(&[("a.txt", "hA")]), "第一版", 10, 1);
    let v2 = version("bbbbbb222222", &["aaaaaa111111"], tree(&[("a.txt", "hB")]), "第二版", 20, 2);
    let versions = vec![v1.clone(), v2.clone()];
    let times = vec!["T1".to_string(), "T2".to_string()];
    let lines = list_report(&versions, Some("bbbbbb222222"), &times);
    assert_eq!(lines.len(), 2);
    assert!(lines[0].starts_with('*') && lines[0].contains("bbbbbb222222"), "新的在上面: {lines:?}");
    assert!(lines[1].contains("aaaaaa111111"));
    assert_eq!(lines[0], "* bbbbbb222222  T2  <-aaaaaa  第二版");
    assert_eq!(lines[1], "  aaaaaa111111  T1  <--  第一版");

    let repo = Repo { root: "/w".to_string(), dir: ".snap".to_string() };
    let id = repo.resolve(&versions, &"aaaaaa111111"[..6]).unwrap();
    assert_eq!(id, "aaaaaa111111");
    let s = show_report(&v1, "T1");
    assert!(s.contains(&"版本:   aaaaaa111111".to_string()), "{s:?}");
    assert!(s.contains(&"说明:   第一版".to_string()), "{s:?}");
    assert!(s.contains(&"  a.txt".to_string()), "{s:?}");
    assert_eq!(s[2], "父版本: -");
    assert_eq!(s[4], "文件 (1):");

    let missing = repo.resolve(&versions, "zzzz").unwrap_err();
    assert_eq!(missing.message(), "找不到版本: zzzz");
    assert_eq!(list_report(&[], None, &vec![]), vec!["(还没有任何版本)"]);
}

#[test]
fn empty_version_prefix_is_rejected() {
    let repo = Repo { root: "/w".to_string(), dir: ".snap".to_string() };
    let v1 = version("aaaaaa111111", &[], Tree::new(), "x", 1, 1);
    let e = repo.resolve(&[v1.clone()], "   ").unwrap_err();
    assert!(e.message().contains("版本ID"), "{}", e.message());
    let v2 = version("aaaaaa222222", &[], Tree::new(), "y", 2, 2);
    let e = repo.resolve(&[v1, v2], "aaaaaa").unwrap_err();
    assert_eq!(e.message(), "版本ID不唯一: aaaaaa -> aaaaaa111111, aaaaaa222222");
}

#[test]
fn repeat_save_of_same_state_creates_no_version() {
    let t = tree(&[("a.txt", "hA")]);
    let first = save_step(None, &t, "v1").expect("first save records");
    assert!(first.1.is_empty());
    let head = version(&first.0, &[], t.clone(), "v1", 1, 1);
    assert!(save_step(Some(&head), &t, "又存一次").is_none());
    let changed = tree(&[("a.txt", "hB")]);
    let next = save_step(Some(&head), &changed, "v2").unwrap();
    assert_eq!(next.1, vec![first.0.clone()]);
    assert_ne!(next.0, first.0);
}

#[test]
fn gc_removes_only_unreferenced_objects() {
    let v = version("x", &[], tree(&[("a.txt", "ab1234"), ("b.txt", "cd5678")]), "m", 0, 0);
    let refs = referenced(&[v]);
    assert!(is_referenced(&refs, "ab", "1234"));
    assert!(is_referenced(&refs, "cd", "5678"));
    assert!(!is_referenced(&refs, "ab", "cdef"));
    assert!(is_temp_object(".tmp-12-3"));
    assert!(!is_temp_object("ab"));
    assert_eq!(gc_summary(1, 17), "清理了 1 个对象，释放 17 字节");
}

#[test]
fn cheat_sheet_upkeep() {
    assert_eq!(help_doc_action(false, false, ""), DocAction::Created);
    assert_eq!(help_doc_action(true, false, "vsnap"), DocAction::Kept);
    assert_eq!(help_doc_action(true, true, "# vsnap 命令对照表"), DocAction::Refreshed);
    assert_eq!(help_doc_action(true, true, "# snap 命令对照表"), DocAction::Kept);
}
