use snap::cli::{expand_short_flag, parse_args, prog_name, version_text, Parsed};
use snap::docs::{find_cmd, render_help, short_flag_to_cmd, usage_line};

fn args(list: &[&str]) -> Vec<String> {
    list.iter().map(|s| s.to_string()).collect()
}

fn run_of(p: Parsed) -> (&'static str, String, Vec<String>) {
    match p {
        Parsed::Run(c, m, a) => (c.name, m, a),
        Parsed::Help(code) => panic!("help {code}"),
        Parsed::Usage(m) => panic!("usage: {m}"),
        Parsed::Version => panic!("version"),
    }
}

fn usage_of(p: Parsed) -> String {
    match p {
        Parsed::Usage(m) => m,
        _ => panic!("expected a usage error"),
    }
}

#[test]
fn short_flags_and_aliases_are_equivalent() {
    for (flag, alias, name) in [
        ("-i", "i", "init"),
        ("-t", "t", "status"),
        ("-l", "l", "list"),
        ("-g", "g", "gc"),
    ] {
        assert_eq!(run_of(parse_args(&args(&[flag]))).0, name);
        assert_eq!(run_of(parse_args(&args(&[alias]))).0, name);
        assert_eq!(run_of(parse_args(&args(&[name]))).0, name);
    }
    let a = run_of(parse_args(&args(&["-s", "改过了"])));
    let b = run_of(parse_args(&args(&["s", "改过了"])));
    let c = run_of(parse_args(&args(&["save", "改过了"])));
    assert_eq!(a, b);
    assert_eq!(b, c);
    assert_eq!(a.1, "改过了");
    let full = run_of(parse_args(&args(&["show", "abc123"])));
    let short = run_of(parse_args(&args(&["-v", "abc123"])));
    assert_eq!(full, short);
    assert_eq!(full.2, vec!["abc123".to_string()]);
}

#[test]
fn help_and_usage_errors() {
    assert!(matches!(parse_args(&args(&[])), Parsed::Help(1)), "没带子命令应给出用法");
    let help = render_help("snap");
    assert!(help.contains("usage:"), "{help}");
    assert!(help.contains("snap -s"), "示例里应有短写法: {help}");
    assert!(matches!(parse_args(&args(&["--help"])), Parsed::Help(0)));
    assert!(matches!(parse_args(&args(&["-s", "x", "-h"])), Parsed::Help(0)));
    assert!(help.starts_with("usage: snap "), "{help}");
    let bogus = usage_of(parse_args(&args(&["bogus"])));
    assert_eq!(bogus, "argument cmd: invalid choice: 'bogus'");
    let nover = usage_of(parse_args(&args(&["-c"])));
    assert_eq!(nover, "the following arguments are required: version");
}

#[test]
fn usage_line_names_the_program() {
    let u = usage_line("snap");
    assert!(u.starts_with("usage: snap "), "{u}");
}

#[test]
fn save_message_forms() {
    assert_eq!(run_of(parse_args(&args(&["-s", "-m", "-x"]))).1, "-x");
    assert_eq!(run_of(parse_args(&args(&["save", "--message", "a b"]))).1, "a b");
    assert_eq!(run_of(parse_args(&args(&["save", "--message=-dash"]))).1, "-dash");
    assert_eq!(run_of(parse_args(&args(&["save", "-m=v"]))).1, "v");
    assert_eq!(run_of(parse_args(&args(&["save"]))).1, "");
    assert_eq!(run_of(parse_args(&args(&["save", "-m", "", "pos"]))).1, "pos");
    assert_eq!(
        usage_of(parse_args(&args(&["save", "-m"]))),
        "argument -m/--message: expected one argument"
    );
    assert_eq!(
        usage_of(parse_args(&args(&["save", "-q"]))),
        "unrecognized arguments: -q（说明以 - 开头时写成 -m=\"...\"）"
    );
    assert_eq!(
        usage_of(parse_args(&args(&["save", "a", "b"]))),
        "unrecognized arguments: b"
    );
}

#[test]
fn operand_counts() {
    assert_eq!(
        usage_of(parse_args(&args(&["diff"]))),
        "the following arguments are required: v1"
    );
    assert_eq!(run_of(parse_args(&args(&["d", "a", "b"]))).2.len(), 2);
    assert_eq!(
        usage_of(parse_args(&args(&["diff", "a", "b", "c"]))),
        "unrecognized arguments: c"
    );
    assert_eq!(
        usage_of(parse_args(&args(&["checkout", "a", "b"]))),
        "unrecognized arguments: b"
    );
    assert_eq!(
        usage_of(parse_args(&args(&["show", "-x"]))),
        "unrecognized arguments: -x"
    );
    assert_eq!(
        usage_of(parse_args(&args(&["status", "extra"]))),
        "unrecognized arguments: extra"
    );
    assert_eq!(
        usage_of(parse_args(&args(&["gc", "x", "-y"]))),
        "unrecognized arguments: -y"
    );
}

#[test]
fn flag_expansion_and_lookup() {
    assert_eq!(short_flag_to_cmd("-c"), Some("checkout"));
    assert_eq!(short_flag_to_cmd("c"), None);
    assert_eq!(find_cmd("d").map(|c| c.name), Some("diff"));
    assert!(find_cmd("-d").is_none());
    assert_eq!(expand_short_flag(&args(&["-d", "x"])), args(&["diff", "x"]));
    assert_eq!(expand_short_flag(&args(&["x", "-d"])), args(&["x", "-d"]));
    assert!(expand_short_flag(&args(&[])).is_empty());
}

#[test]
fn program_name_from_path() {
    assert_eq!(prog_name(Some("/usr/local/bin/snap"), false), "snap");
    assert_eq!(prog_name(Some("/opt/tools/vs.exe"), false), "vs");
    assert_eq!(prog_name(Some("/usr/bin/Python3"), false), "snap");
    assert_eq!(prog_name(Some("py"), false), "snap");
    assert_eq!(prog_name(Some(""), false), "snap");
    assert_eq!(prog_name(None, false), "snap");
    assert_eq!(prog_name(Some("tool.tar.gz"), false), "tool.tar");
    assert_eq!(prog_name(Some(".hidden"), false), ".hidden");
    assert_eq!(prog_name(Some("C:\\snap\\snap.exe"), true), "snap");
    assert_eq!(prog_name(Some("D:\\Tools\\PYTHON.EXE"), true), "snap");
    assert_eq!(prog_name(Some("C:\\snap\\snap.exe"), false), "C:\\snap\\snap");
}

#[test]
fn version_flag_prints_the_package_version() {
    assert!(matches!(parse_args(&args(&["--version"])), Parsed::Version));
    assert!(matches!(parse_args(&args(&["-V"])), Parsed::Version));
    assert!(matches!(parse_args(&args(&["-V", "extra"])), Parsed::Version));
    assert!(matches!(parse_args(&args(&["-h", "-V"])), Parsed::Help(0)));
    assert_eq!(version_text("snap"), "snap 1.0.1");
    assert_eq!(version_text(&prog_name(Some("/usr/bin/python3"), false)), "snap 1.0.1");
}
