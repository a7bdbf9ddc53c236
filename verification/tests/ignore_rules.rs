use snap::ignore::{compile, is_ignored, Pattern};

fn pats(list: &[&str]) -> Vec<Pattern> {
    compile(list)
}

#[test]
fn slash_patterns() {
    let p = pats(&["logs/", "*.log", "keep/c.txt"]);
    assert!(is_ignored("logs/debug.log", &p, false));
    assert!(is_ignored("logs", &p, true));
    assert!(!is_ignored("logs", &p, false), "目录规则不该命中同名文件");
    assert!(is_ignored("a.log", &p, false));
    assert!(is_ignored("x/y/deep.log", &p, false));
    assert!(is_ignored("keep/c.txt", &p, false));
}

#[test]
fn anchored_and_globstar() {
    let p = pats(&["keep/*.log"]);
    assert!(is_ignored("keep/b.log", &p, false));
    assert!(!is_ignored("keep/nested/a.log", &p, false), "* 不该跨目录");
    let p = pats(&["keep/**/*.log"]);
    assert!(is_ignored("keep/nested/a.log", &p, false));
    assert!(is_ignored("keep/a.log", &p, false), "**/ 可以是零层");
    let p = pats(&["**/logs"]);
    assert!(is_ignored("deep/logs", &p, true));
}

#[test]
fn bracket_class_in_segment() {
    let p = pats(&["*.[oa]"]);
    assert!(is_ignored("foo.o", &p, false));
    assert!(is_ignored("foo.a", &p, false));
    assert!(!is_ignored("foo.c", &p, false));
    let p = pats(&["[!a]bc"]);
    assert!(is_ignored("xbc", &p, false));
    assert!(!is_ignored("abc", &p, false));
}

#[test]
fn comments_and_blank_lines() {
    let p = compile(&["", "  ", "# 注释", "*.tmp"]);
    assert_eq!(p.len(), 1);
    assert!(is_ignored("x.tmp", &p, false));
}

#[test]
fn comment_lines_do_not_change_rules() {
    let a = compile(&["*.o", "build/"]);
    let b = compile(&["*.o", "   # note", "", "build/"]);
    assert_eq!(a.len(), b.len());
    for (x, y) in a.iter().zip(b.iter()) {
        assert_eq!(x.pat, y.pat);
        assert_eq!(x.dir_only, y.dir_only);
    }
}

#[test]
fn star_keeps_depth_and_globstar_spans_levels() {
    let p = pats(&["src/*.rs"]);
    assert!(is_ignored("src/main.rs", &p, false));
    assert!(!is_ignored("src/bin/main.rs", &p, false));
    let p = pats(&["a/?/c"]);
    assert!(is_ignored("a/b/c", &p, false));
    assert!(!is_ignored("a//c", &p, false));
    let p = pats(&["**/x.txt"]);
    assert!(is_ignored("x.txt", &p, false));
    assert!(is_ignored("p/q/r/x.txt", &p, false));
}

#[test]
fn directory_rule_covers_contents() {
    let p = pats(&["target/"]);
    assert!(is_ignored("target", &p, true));
    assert!(is_ignored("a/target", &p, true));
    assert!(is_ignored("a/target/x.o", &p, false));
    assert!(is_ignored("a/target/sub", &p, true));
    assert!(!is_ignored("a/target", &p, false));
}

#[test]
fn default_rules_cover_data_and_cache() {
    let defaults = snap::ignore::default_ignore();
    let p = compile(&defaults);
    assert!(is_ignored(".snap", &p, true));
    assert!(is_ignored(".vsnap", &p, true));
    assert!(is_ignored(".git", &p, true));
    assert!(is_ignored("pkg/__pycache__", &p, true));
    assert!(is_ignored("m.pyc", &p, false));
    assert!(is_ignored("notes.txt~", &p, false));
    assert!(!is_ignored(".snapignore", &p, false));
    assert!(!is_ignored("a.txt", &p, false));
}
