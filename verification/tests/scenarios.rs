//! Whole-command scenarios, run on the library's part of each command: the decisions and
//! the bytes, with the directory listings and file contents given as values.

use snap::checkout::{checkout_plan, preflight, WriteCheck};
use snap::chunk::{
    compress_chunk, inflate_chunk, is_chunked, parse_entry, parse_preamble, ChunkTable,
    CHUNK_BYTES, ENTRY, PREAMBLE,
};
use snap::cli::{parse_args, Parsed};
use snap::digest::sha1_hex;
use snap::docs::render_help_doc;
use snap::ignore::{is_ignored, Pattern};
use snap::object::encode_object;
use snap::paths::{check_rel, rel_posix};
use snap::report::{absent_keys, help_doc_action, DocAction};
use snap::scan::{DirEntry, FileWalk};
use snap::store::{data_dir_here, ignore_files, json_string, Repo};
use snap::tree::Tree;

fn args(list: &[&str]) -> Vec<String> {
    list.iter().map(|s| s.to_string()).collect()
}

fn tree(pairs: &[(&str, &str)]) -> Tree {
    let mut t = Tree::new();
    for (k, v) in pairs {
        t.insert(k.to_string(), v.to_string());
    }
    t
}

fn ok_check() -> WriteCheck {
    WriteCheck {
        object_missing: false,
        dir_in_way: false,
        blocked_by: None,
        dir_unwritable: false,
        readonly: false,
    }
}

fn entry(name: &str, is_dir: bool) -> DirEntry {
    DirEntry { name: name.to_string(), is_link: false, is_dir }
}

fn walk(repo: &Repo, pats: &[Pattern], listing: &dyn Fn(&str) -> Vec<DirEntry>) -> Vec<String> {
    let mut w = FileWalk::new();
    while let Some(d) = w.next_dir() {
        let es = listing(&d);
        w.visit(&d, &es, pats, &repo.root, None, false);
    }
    repo.iter_files(w)
}

fn needs_repo(list: &[&str]) -> bool {
    match parse_args(&args(list)) {
        Parsed::Run(c, _, _) => c.needs_repo,
        _ => panic!("expected a command"),
    }
}

#[test]
fn init_creates_repo_and_cheat_sheet() {
    let doc = render_help_doc("snap");
    assert!(doc.starts_with("# snap 命令对照表"), "{doc}");
    assert!(doc.contains("`snap -i`") && doc.contains("`snap i`") && doc.contains("`snap init`"));
    assert!(doc.contains(".snapignore"), "对照表应说明忽略规则");
    assert_eq!(help_doc_action(false, false, ""), DocAction::Created);

    // init again: the data directory is found, and the cheat sheet is kept as it is
    assert_eq!(data_dir_here(&[true, false]), Some(".snap".to_string()));
    assert_eq!(help_doc_action(true, true, &doc), DocAction::Kept);
}

#[test]
fn needs_repo_before_init() {
    assert!(needs_repo(&["-t"]));
    assert!(needs_repo(&["status"]));
    assert!(!needs_repo(&["-i"]));
    assert_eq!(data_dir_here(&[false, false]), None);
}

#[test]
fn paths_are_posix_and_roundtrip_bytes() {
    assert_eq!(rel_posix("/p", "/p/deep/a/b/c.txt", false), Some("deep/a/b/c.txt".to_string()));
    assert_eq!(rel_posix("/p", "/p/中文 文件.txt", false), Some("中文 文件.txt".to_string()));
    assert!(check_rel("中文 文件.txt", false).is_ok());
    assert_eq!(json_string("中文 文件.txt"), "\"中文 文件.txt\"");

    let bin: Vec<u8> = (0..=255u8).collect();
    for data in [bin.clone(), Vec::new(), b"deep\n".to_vec()] {
        let (name, stored) = encode_object(&data, 6).unwrap();
        assert_eq!(name, sha1_hex(&data));
        assert_eq!(inflate_chunk(&stored, data.len() as u32).unwrap(), data, "往返必须一致");
    }
}

#[test]
fn checkout_can_swap_file_and_directory() {
    // v2 holds p/inner.txt; switching to v1, where p is a file
    let old = tree(&[("p/inner.txt", "h2")]);
    let target = tree(&[("p", "h1")]);
    let dels = absent_keys(&old, &target);
    assert_eq!(dels, vec!["p/inner.txt"]);
    let plan = checkout_plan(&target, &old, dels, &vec![None], &vec![Some("h2".to_string())]);
    assert_eq!(plan.to_write, vec!["p"]);
    assert_eq!(plan.to_delete, vec!["p/inner.txt"]);
    assert!(plan.lost.is_empty(), "内容在旧版本里，不算丢失");
    // the directory p holds only the file being deleted: nothing is in the way
    let problems = preflight(&plan, &target, &vec![ok_check()], &vec![false]);
    assert!(problems.is_empty(), "{problems:?}");
}

#[test]
fn checkout_removes_empty_directories() {
    let v1 = tree(&[("d/sub/x.txt", "hx")]);
    let v2 = Tree::new();
    let plan = checkout_plan(&v1, &v2, absent_keys(&v2, &v1), &vec![None], &vec![]);
    assert_eq!(plan.to_write, vec!["d/sub/x.txt"], "应重建嵌套文件");
    assert!(plan.to_delete.is_empty() && plan.lost.is_empty());

    let dels = absent_keys(&v1, &v2);
    let back = checkout_plan(&v2, &v1, dels, &vec![], &vec![Some("hx".to_string())]);
    assert_eq!(back.to_delete, vec!["d/sub/x.txt"]);
    assert!(back.to_write.is_empty() && back.lost.is_empty());
}

#[test]
fn legacy_vsnap_repo_is_recognized_and_migrated() {
    assert_eq!(data_dir_here(&[false, true]), Some(".vsnap".to_string()));
    assert_eq!(data_dir_here(&[true, true]), Some(".snap".to_string()));
    assert_eq!(ignore_files(), vec![".snapignore", ".vsnapignore"]);

    let repo = Repo { root: "/w".to_string(), dir: ".vsnap".to_string() };
    let pats = repo.load_ignore(Some("*.log\n"));
    assert!(is_ignored("debug.log", &pats, false), "旧忽略文件仍要生效");
    assert!(is_ignored(".vsnap", &pats, true));
    assert!(!is_ignored("a.txt", &pats, false));
    assert_eq!(repo.data_path(&["HEAD"]), "/w/.vsnap/HEAD");
}

#[test]
fn nested_init_creates_independent_repo() {
    let outer = Repo { root: "/w".to_string(), dir: ".snap".to_string() };
    let pats = outer.load_ignore(None);
    let listing = |d: &str| -> Vec<DirEntry> {
        match d {
            "" => vec![entry(".snap", true), entry("a.txt", false), entry("sub", true)],
            "sub" => vec![entry(".snap", true), entry("b.txt", false)],
            _ => vec![entry("HEAD", false)],
        }
    };
    assert_eq!(walk(&outer, &pats, &listing), vec!["a.txt", "sub/b.txt"], "内层数据目录应被忽略");

    // the inner repository sees only its own files
    let inner = Repo { root: "/w/sub".to_string(), dir: ".snap".to_string() };
    let inner_listing = |d: &str| -> Vec<DirEntry> {
        match d {
            "" => vec![entry(".snap", true), entry("b.txt", false)],
            _ => vec![entry("HEAD", false)],
        }
    };
    assert_eq!(walk(&inner, &inner.load_ignore(None), &inner_listing), vec!["b.txt"]);
}

#[test]
fn mixed_object_formats_coexist() {
    // a small file: one zlib stream, not a container
    let (_, small) = encode_object(b"single stream", 6).unwrap();
    assert!(!is_chunked(&small[..8]));

    // a large file: a container of 4 MiB chunks
    let big = vec![7u8; 9 * 1024 * 1024];
    let mut table = ChunkTable::new(big.len() as u64);
    let mut body: Vec<(u64, Vec<u8>)> = Vec::new();
    for (i, raw) in big.chunks(CHUNK_BYTES as usize).enumerate() {
        let c = compress_chunk(raw, 1).unwrap();
        let off = table.place(i, c.len() as u32, raw.len() as u32);
        body.push((off, c));
    }
    let head = table.finish().unwrap();
    let mut file = vec![0u8; table.data_end_now() as usize];
    file[..head.len()].copy_from_slice(&head);
    for (off, c) in &body {
        file[*off as usize..*off as usize + c.len()].copy_from_slice(c);
    }
    assert!(is_chunked(&file[..8]));

    let count = parse_preamble(&file[..PREAMBLE as usize]).unwrap();
    assert_eq!(count, 3);
    let mut back = Vec::new();
    for i in 0..count {
        let at = (PREAMBLE + ENTRY * i) as usize;
        let e = parse_entry(&file[at..at + ENTRY as usize]);
        let comp = &file[e.off as usize..(e.off + e.clen as u64) as usize];
        back.extend_from_slice(&inflate_chunk(comp, e.rlen).unwrap());
    }
    assert_eq!(back, big);
    assert_eq!(inflate_chunk(&small, 13).unwrap(), b"single stream");
}
