use snap::ignore::Pattern;
use snap::scan::{child_rel, DirEntry, FileWalk};
use snap::store::Repo;
use snap::text::sort_strings;

fn entry(name: &str, is_dir: bool) -> DirEntry {
    DirEntry { name: name.to_string(), is_link: false, is_dir }
}

/// Walks a work tree given as its directory listings.
fn walk(repo: &Repo, pats: &[Pattern], listing: &dyn Fn(&str) -> Vec<DirEntry>) -> Vec<String> {
    let mut w = FileWalk::new();
    while let Some(d) = w.next_dir() {
        let es = listing(&d);
        w.visit(&d, &es, pats, &repo.root, Some("/w/snap"), false);
    }
    repo.iter_files(w)
}

#[test]
fn ignore_rules() {
    let r = Repo { root: "/w".to_string(), dir: ".snap".to_string() };
    let pats = r.load_ignore(Some("logs/\ncache/\n*.log\n"));
    let listing = |d: &str| -> Vec<DirEntry> {
        match d {
            "" => vec![
                entry(".snap", true),
                entry(".snapignore", false),
                entry("a.txt", false),
                entry("cache", false),
                entry("keep", true),
                entry("logs", true),
                entry("top.log", false),
            ],
            "keep" => vec![entry("a.log", false)],
            "logs" => vec![entry("debug.log", false)],
            ".snap" => vec![entry("HEAD", false)],
            _ => vec![],
        }
    };
    let tree = walk(&r, &pats, &listing);
    assert!(!tree.iter().any(|k| k.starts_with("logs/")), "目录规则 logs/: {tree:?}");
    assert!(!tree.contains(&"keep/a.log".to_string()), "*.log 应匹配任意层级: {tree:?}");
    assert!(!tree.contains(&"top.log".to_string()), "*.log 应匹配任意层级: {tree:?}");
    assert!(tree.contains(&"cache".to_string()), "目录规则不该命中同名普通文件: {tree:?}");
    assert!(tree.contains(&"a.txt".to_string()), "{tree:?}");
    assert!(tree.contains(&".snapignore".to_string()), "忽略文件本身应被跟踪: {tree:?}");
    assert!(!tree.iter().any(|k| k == ".snap" || k.starts_with(".snap/")), "{tree:?}");
}

#[test]
fn ignore_anchoring_and_globstar() {
    let r = Repo { root: "/w".to_string(), dir: ".snap".to_string() };
    let listing = |d: &str| -> Vec<DirEntry> {
        match d {
            "" => vec![entry("keep", true), entry("other.log", false)],
            "keep" => vec![entry("a.log", false), entry("deep", true)],
            "keep/deep" => vec![entry("b.log", false)],
            _ => vec![],
        }
    };
    let pats = r.load_ignore(Some("keep/*.log\n"));
    let tree = walk(&r, &pats, &listing);
    assert!(!tree.contains(&"keep/a.log".to_string()), "keep/*.log 应命中: {tree:?}");
    assert!(tree.contains(&"keep/deep/b.log".to_string()), "* 不该跨目录层级: {tree:?}");
    assert!(tree.contains(&"other.log".to_string()), "含 / 的模式是锚定的: {tree:?}");
    let pats = r.load_ignore(Some("keep/**/*.log\n"));
    let tree2 = walk(&r, &pats, &listing);
    assert!(!tree2.contains(&"keep/deep/b.log".to_string()), "{tree2:?}");
    assert!(!tree2.contains(&"keep/a.log".to_string()), "**/ 可以是零层: {tree2:?}");
}

#[test]
fn links_and_the_program_itself() {
    let r = Repo { root: "/w".to_string(), dir: ".snap".to_string() };
    let pats = r.load_ignore(None);
    let listing = |d: &str| -> Vec<DirEntry> {
        match d {
            "" => vec![
                DirEntry { name: "linkdir".into(), is_link: true, is_dir: true },
                DirEntry { name: "linkfile".into(), is_link: true, is_dir: false },
                entry("snap", false),
                entry("z", true),
            ],
            "z" => vec![entry("b", false), entry("a", false)],
            _ => panic!("walked into {d}"),
        }
    };
    let tree = walk(&r, &pats, &listing);
    assert_eq!(tree, vec!["linkfile", "z/a", "z/b"]);
}

#[test]
fn relative_names_and_sorting() {
    assert_eq!(child_rel("", "a"), "a");
    assert_eq!(child_rel("a/b", "c"), "a/b/c");
    let s = sort_strings(vec!["b".into(), "a/b".into(), "a.txt".into(), "中".into(), "A".into()]);
    assert_eq!(s, vec!["A", "a.txt", "a/b", "b", "中"]);
}

#[test]
fn running_program_is_left_out_on_windows() {
    let r = Repo { root: "C:\\proj".to_string(), dir: ".snap".to_string() };
    let pats = r.load_ignore(None);
    let mut w = FileWalk::new();
    while let Some(d) = w.next_dir() {
        let es = if d.is_empty() {
            vec![entry("snap.exe", false), entry("a.txt", false), entry("sub", true)]
        } else {
            vec![entry("snap.exe", false)]
        };
        w.visit(&d, &es, &pats, &r.root, Some("C:\\proj\\snap.exe"), true);
    }
    assert_eq!(r.iter_files(w), vec!["a.txt", "sub/snap.exe"]);
}
