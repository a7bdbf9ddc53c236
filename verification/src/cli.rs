//! The command line: from the arguments to the command to run, with the same usage errors
//! (and exit codes) as an argparse front end would give.
use vstd::prelude::*;
use crate::docs::{command_table, find_cmd, first_cmd, first_flag, short_flag_to_cmd, Command,
    CommandView};
use crate::paths::{file_stem, file_stem_spec};
use crate::store::strs;
use crate::text::{
    append_str, cat, chars_of, lowercase_spec, owned, starts_with, starts_with_spec, str_eq,
    string_of_range, to_lowercase,
};

verus! {

// ------------------------------------------------------------------ program name

/// The interpreter names under which the tool may be started as a script; it then calls
/// itself "snap".
pub open spec fn interpreter_name(s: Seq<char>) -> bool {
    s == "python"@ || s == "pythonw"@ || s == "py"@ || s == "python3"@
}

/// The name the tool calls itself: the file stem of the path it was started as, or "snap"
/// when that is empty or an interpreter's name (in any case). `windows`: the path is a
/// Windows path (see `components_spec`).
pub open spec fn prog_name_spec(arg0: Option<Seq<char>>, windows: bool) -> Seq<char> {
    let raw = match arg0 {
        Some(a) => a,
        None => Seq::empty(),
    };
    let stem = match file_stem_spec(raw, windows) {
        Some(s) => s,
        None => Seq::empty(),
    };
    if stem.len() == 0 || interpreter_name(lowercase_spec(stem)) {
        "snap"@
    } else {
        stem
    }
}

/// The name the tool calls itself, from the first program argument (if any).
pub fn prog_name(arg0: Option<&str>, windows: bool) -> (r: String)
    ensures
        r@ == prog_name_spec(
            match arg0 {
                Some(a) => Some(a@),
                None => None,
            },
            windows,
        ),
{
    let stem = match file_stem(
        match arg0 {
            Some(a) => a,
            None => "",
        },
        windows,
    ) {
        Some(s) => s,
        None => String::new(),
    };
    proof {
        reveal_strlit("");
    }
    let sv = chars_of(stem.as_str());
    if sv.len() == 0 {
        return owned("snap");
    }
    let low = to_lowercase(stem.as_str());
    let l = low.as_str();
    if str_eq(l, "python") || str_eq(l, "pythonw") || str_eq(l, "py") || str_eq(l, "python3") {
        owned("snap")
    } else {
        stem
    }
}

/// The version of this program.
pub const PKG_VERSION: &'static str = "1.0.1";

/// What `--version` prints: the program name and its version.
pub fn version_text(prog: &str) -> (r: String)
    ensures
        r@ == prog@ + " "@ + PKG_VERSION@,
{
    let mut s = cat(prog, " ");
    append_str(&mut s, PKG_VERSION);
    s
}

// ------------------------------------------------------------------ arguments

/// `argv` with a leading short flag (`-s`) replaced by its command's name.
pub open spec fn expand_spec(argv: Seq<Seq<char>>) -> Seq<Seq<char>> {
    if argv.len() > 0 {
        match first_flag(command_table(), argv[0], 0) {
            Some(i) => seq![command_table()[i].name] + argv.skip(1),
            None => argv,
        }
    } else {
        argv
    }
}

/// `snap -s "note"` is `snap save "note"`: a leading short flag becomes its command's name.
pub fn expand_short_flag(argv: &Vec<String>) -> (r: Vec<String>)
    ensures
        strs(r@) == expand_spec(strs(argv@)),
{
    let ghost a = strs(argv@);
    if argv.len() == 0 {
        return Vec::new();
    }
    assert(a[0] == argv@[0]@);
    let mut out: Vec<String> = Vec::new();
    let start: usize = match short_flag_to_cmd(argv[0].as_str()) {
        Some(name) => {
            out.push(owned(name));
            1
        },
        None => 0,
    };
    let ghost head = strs(out@);
    let mut i: usize = start;
    while i < argv.len()
        invariant
            start <= i <= argv.len(),
            a == strs(argv@),
            strs(out@) == head + a.subrange(start as int, i as int),
        decreases argv.len() - i,
    {
        let ghost before = out@;
        out.push(argv[i].clone());
        assert(strs(out@) =~= strs(before).push(a[i as int]));
        assert(a.subrange(start as int, i + 1) =~= a.subrange(start as int, i as int).push(
            a[i as int],
        ));
        i += 1;
    }
    proof {
        if start == 1 {
            assert(a.subrange(1, a.len() as int) =~= a.skip(1));
        } else {
            assert(head =~= Seq::<Seq<char>>::empty());
            assert(a.subrange(0, a.len() as int) =~= a);
        }
    }
    out
}

/// An argument that looks like an option.
pub open spec fn is_dash(a: Seq<char>) -> bool {
    a.len() > 0 && a[0] == '-'
}

/// The usage error for an argument nobody takes.
pub open spec fn unrecognized(a: Seq<char>) -> Seq<char> {
    "unrecognized arguments: "@ + a
}

/// The first option-looking argument from `i` on.
pub open spec fn first_dash(rest: Seq<Seq<char>>, i: int) -> Option<int>
    decreases rest.len() - i,
{
    if i < 0 || i >= rest.len() {
        None
    } else if is_dash(rest[i]) {
        Some(i)
    } else {
        first_dash(rest, i + 1)
    }
}

/// The arguments of `save`, from `i` on, with the message and positional argument so far:
/// `-m X`, `--message X`, `--message=X` and `-m=X` set the message; one positional
/// argument is allowed; anything else option-like is refused (a message that starts with
/// "-" must be written `-m="..."`).
pub open spec fn save_scan(
    rest: Seq<Seq<char>>,
    i: int,
    msg: Seq<char>,
    pos: Seq<Seq<char>>,
) -> Result<(Seq<char>, Seq<Seq<char>>), Seq<char>>
    decreases rest.len() - i,
{
    if i < 0 || i >= rest.len() {
        Ok((msg, pos))
    } else {
        let a = rest[i];
        if a == "-m"@ || a == "--message"@ {
            if i + 1 >= rest.len() {
                Err("argument -m/--message: expected one argument"@)
            } else {
                save_scan(rest, i + 2, rest[i + 1], pos)
            }
        } else if starts_with_spec(a, "--message="@) {
            save_scan(rest, i + 1, a.skip(10), pos)
        } else if starts_with_spec(a, "-m="@) {
            save_scan(rest, i + 1, a.skip(3), pos)
        } else if is_dash(a) {
            Err(unrecognized(a) + "（说明以 - 开头时写成 -m=\"...\"）"@)
        } else if pos.len() == 0 {
            save_scan(rest, i + 1, msg, seq![a])
        } else {
            Err(unrecognized(a))
        }
    }
}

/// The message and positional arguments of command `name` from the arguments after it,
/// or the usage error. The message of `save` falls back to its positional argument.
pub open spec fn operands_spec(name: Seq<char>, rest: Seq<Seq<char>>) -> Result<
    (Seq<char>, Seq<Seq<char>>),
    Seq<char>,
> {
    if name == "save"@ {
        match save_scan(rest, 0, Seq::empty(), Seq::empty()) {
            Ok((m, pos)) => Ok(
                (
                    if m.len() == 0 {
                        if pos.len() > 0 {
                            pos[0]
                        } else {
                            Seq::empty()
                        }
                    } else {
                        m
                    },
                    pos,
                ),
            ),
            Err(e) => Err(e),
        }
    } else {
        match first_dash(rest, 0) {
            Some(k) => Err(unrecognized(rest[k])),
            None => if name == "show"@ || name == "checkout"@ {
                if rest.len() == 0 {
                    Err("the following arguments are required: version"@)
                } else if rest.len() > 1 {
                    Err(unrecognized(rest[1]))
                } else {
                    Ok((Seq::empty(), rest))
                }
            } else if name == "diff"@ {
                if rest.len() == 0 {
                    Err("the following arguments are required: v1"@)
                } else if rest.len() > 2 {
                    Err(unrecognized(rest[2]))
                } else {
                    Ok((Seq::empty(), rest))
                }
            } else if rest.len() > 0 {
                Err(unrecognized(rest[0]))
            } else {
                Ok((Seq::empty(), Seq::empty()))
            },
        }
    }
}

/// What the command line asks for.
pub enum ArgsView {
    /// Print the help and exit with this code.
    Help(int),
    /// Print the program's version.
    Version,
    /// A usage error with this message (exit code 2).
    Usage(Seq<char>),
    /// Run the command with the message and positional arguments.
    Run(CommandView, Seq<char>, Seq<Seq<char>>),
}

/// Some argument asks for help.
pub open spec fn wants_help(argv: Seq<Seq<char>>) -> bool {
    exists|k: int| 0 <= k < argv.len() && (#[trigger] argv[k] == "-h"@ || argv[k] == "--help"@)
}

/// An argument that asks for the version.
pub open spec fn is_version_flag(a: Seq<char>) -> bool {
    a == "--version"@ || a == "-V"@
}

/// What the arguments (after the program name) ask for: the help (exit 1) when there are
/// none, the version when the first is `--version` or `-V`, the help (exit 0) when one of
/// them is `-h` or `--help`, a usage error for an unknown command or bad arguments, else
/// the command with its operands.
pub open spec fn parse_spec(raw: Seq<Seq<char>>) -> ArgsView {
    let argv = expand_spec(raw);
    if argv.len() == 0 {
        ArgsView::Help(1)
    } else if is_version_flag(argv[0]) {
        ArgsView::Version
    } else if wants_help(argv) {
        ArgsView::Help(0)
    } else {
        match first_cmd(command_table(), argv[0], 0) {
            None => ArgsView::Usage("argument cmd: invalid choice: '"@ + argv[0] + "'"@),
            Some(i) => match operands_spec(command_table()[i].name, argv.skip(1)) {
                Ok((m, pos)) => ArgsView::Run(command_table()[i], m, pos),
                Err(e) => ArgsView::Usage(e),
            },
        }
    }
}

/// What the command line asks for.
pub enum Parsed {
    Help(i32),
    Version,
    Usage(String),
    Run(Command, String, Vec<String>),
}

impl View for Parsed {
    type V = ArgsView;

    open spec fn view(&self) -> ArgsView {
        match self {
            Parsed::Help(c) => ArgsView::Help(*c as int),
            Parsed::Version => ArgsView::Version,
            Parsed::Usage(m) => ArgsView::Usage(m@),
            Parsed::Run(c, m, a) => ArgsView::Run(c@, m@, strs(a@)),
        }
    }
}

fn is_dash_arg(a: &str) -> (b: bool)
    ensures
        b == is_dash(a@),
{
    let v = chars_of(a);
    v.len() > 0 && v[0] == '-'
}

fn has_prefix(a: &str, p: &str) -> (b: bool)
    ensures
        b == starts_with_spec(a@, p@),
{
    let av = chars_of(a);
    let pv = chars_of(p);
    starts_with(&av, &pv)
}

/// The text of `a` after its first `n` characters.
fn after(a: &str, n: usize) -> (r: String)
    requires
        n <= a@.len(),
    ensures
        r@ == a@.skip(n as int),
{
    let v = chars_of(a);
    let r = string_of_range(&v, n, v.len());
    assert(v@.subrange(n as int, v@.len() as int) =~= a@.skip(n as int));
    r
}

fn save_operands(rest: &Vec<String>) -> (r: Result<(String, Vec<String>), String>)
    ensures
        match save_scan(strs(rest@), 0, Seq::empty(), Seq::empty()) {
            Ok((m, pos)) => r matches Ok((rm, rp)) && rm@ == m && strs(rp@) == pos,
            Err(e) => r matches Err(re) && re@ == e,
        },
{
    let ghost rs = strs(rest@);
    let mut msg = String::new();
    let mut pos: Vec<String> = Vec::new();
    let mut i: usize = 0;
    proof {
        reveal_strlit("");
        assert(strs(pos@) =~= Seq::<Seq<char>>::empty());
        assert(msg@ =~= Seq::<char>::empty());
        reveal_strlit("--message=");
        reveal_strlit("-m=");
    }
    while i < rest.len()
        invariant
            0 <= i <= rest.len(),
            rs == strs(rest@),
            pos.len() <= 1,
            save_scan(rs, 0, Seq::empty(), Seq::empty()) == save_scan(rs, i as int, msg@, strs(pos@)),
        decreases rest.len() - i,
    {
        let a = rest[i].as_str();
        assert(rs[i as int] == a@);
        proof {
            reveal_strlit("--message=");
            reveal_strlit("-m=");
        }
        if str_eq(a, "-m") || str_eq(a, "--message") {
            if i + 1 >= rest.len() {
                return Err(owned("argument -m/--message: expected one argument"));
            }
            assert(rs[i + 1] == rest@[i + 1]@);
            msg = rest[i + 1].clone();
            i += 2;
        } else if has_prefix(a, "--message=") {
            msg = after(a, 10);
            i += 1;
        } else if has_prefix(a, "-m=") {
            msg = after(a, 3);
            i += 1;
        } else if is_dash_arg(a) {
            let mut e = cat("unrecognized arguments: ", a);
            append_str(&mut e, "（说明以 - 开头时写成 -m=\"...\"）");
            return Err(e);
        } else if pos.len() == 0 {
            pos.push(rest[i].clone());
            assert(strs(pos@) =~= seq![a@]);
            i += 1;
        } else {
            return Err(cat("unrecognized arguments: ", a));
        }
    }
    Ok((msg, pos))
}

fn operands(name: &str, rest: &Vec<String>) -> (r: Result<(String, Vec<String>), String>)
    ensures
        match operands_spec(name@, strs(rest@)) {
            Ok((m, pos)) => r matches Ok((rm, rp)) && rm@ == m && strs(rp@) == pos,
            Err(e) => r matches Err(re) && re@ == e,
        },
{
    let ghost rs = strs(rest@);
    if str_eq(name, "save") {
        let (m, pos) = save_operands(rest)?;
        let pv = chars_of(m.as_str());
        if pv.len() == 0 {
            let first = if pos.len() > 0 {
                assert(strs(pos@)[0] == pos@[0]@);
                pos[0].clone()
            } else {
                String::new()
            };
            proof {
                reveal_strlit("");
            }
            return Ok((first, pos));
        }
        return Ok((m, pos));
    }
    let mut k: usize = 0;
    while k < rest.len()
        invariant
            0 <= k <= rest.len(),
            rs == strs(rest@),
            name@ != "save"@,
            first_dash(rs, 0) == first_dash(rs, k as int),
        decreases rest.len() - k,
    {
        assert(rs[k as int] == rest@[k as int]@);
        if is_dash_arg(rest[k].as_str()) {
            return Err(cat("unrecognized arguments: ", rest[k].as_str()));
        }
        k += 1;
    }
    proof {
        reveal_strlit("");
    }
    if str_eq(name, "show") || str_eq(name, "checkout") {
        if rest.len() == 0 {
            return Err(owned("the following arguments are required: version"));
        }
        if rest.len() > 1 {
            assert(rs[1] == rest@[1]@);
            return Err(cat("unrecognized arguments: ", rest[1].as_str()));
        }
        return Ok((String::new(), rest.clone()));
    }
    if str_eq(name, "diff") {
        if rest.len() == 0 {
            return Err(owned("the following arguments are required: v1"));
        }
        if rest.len() > 2 {
            assert(rs[2] == rest@[2]@);
            return Err(cat("unrecognized arguments: ", rest[2].as_str()));
        }
        return Ok((String::new(), rest.clone()));
    }
    if rest.len() > 0 {
        assert(rs[0] == rest@[0]@);
        return Err(cat("unrecognized arguments: ", rest[0].as_str()));
    }
    let empty: Vec<String> = Vec::new();
    assert(strs(empty@) =~= Seq::<Seq<char>>::empty());
    Ok((String::new(), empty))
}

/// Reads the command line (the arguments after the program name).
pub fn parse_args(raw: &Vec<String>) -> (p: Parsed)
    ensures
        p@ == parse_spec(strs(raw@)),
{
    let argv = expand_short_flag(raw);
    let ghost av = strs(argv@);
    if argv.len() == 0 {
        return Parsed::Help(1);
    }
    assert(av[0] == argv@[0]@);
    if str_eq(argv[0].as_str(), "--version") || str_eq(argv[0].as_str(), "-V") {
        return Parsed::Version;
    }
    let mut k: usize = 0;
    while k < argv.len()
        invariant
            0 <= k <= argv.len(),
            av == strs(argv@),
            av == expand_spec(strs(raw@)),
            argv.len() > 0,
            !is_version_flag(av[0]),
            forall|j: int| 0 <= j < k ==> !(#[trigger] av[j] == "-h"@ || av[j] == "--help"@),
        decreases argv.len() - k,
    {
        assert(av[k as int] == argv@[k as int]@);
        if str_eq(argv[k].as_str(), "-h") || str_eq(argv[k].as_str(), "--help") {
            assert(av[k as int] == "-h"@ || av[k as int] == "--help"@);
            assert(wants_help(av));
            return Parsed::Help(0);
        }
        k += 1;
    }
    assert(av[0] == argv@[0]@);
    let cmd = match find_cmd(argv[0].as_str()) {
        Some(c) => c,
        None => {
            let mut m = cat("argument cmd: invalid choice: '", argv[0].as_str());
            append_str(&mut m, "'");
            return Parsed::Usage(m);
        },
    };
    let mut rest: Vec<String> = Vec::new();
    let mut i: usize = 1;
    while i < argv.len()
        invariant
            1 <= i <= argv.len(),
            av == strs(argv@),
            strs(rest@) == av.subrange(1, i as int),
        decreases argv.len() - i,
    {
        let ghost before = rest@;
        rest.push(argv[i].clone());
        assert(strs(rest@) =~= strs(before).push(av[i as int]));
        assert(av.subrange(1, i + 1) =~= av.subrange(1, i as int).push(av[i as int]));
        i += 1;
    }
    assert(av.subrange(1, av.len() as int) =~= av.skip(1));
    match operands(cmd.name, &rest) {
        Ok((m, pos)) => Parsed::Run(cmd, m, pos),
        Err(e) => Parsed::Usage(e),
    }
}


/// The three spellings of a command are one: `snap -s ..`, `snap s ..` and `snap save ..`
/// (and likewise for every command) ask for the same thing.
pub proof fn lemma_command_spellings(i: int, rest: Seq<Seq<char>>)
    requires
        0 <= i < command_table().len(),
    ensures
        parse_spec(seq![command_table()[i].flag] + rest) == parse_spec(
            seq![command_table()[i].name] + rest,
        ),
        parse_spec(seq![command_table()[i].alias] + rest) == parse_spec(
            seq![command_table()[i].name] + rest,
        ),
{
    let t = command_table();
    lemma_table_lookup(i);
    let a = seq![t[i].flag] + rest;
    let b = seq![t[i].name] + rest;
    let c = seq![t[i].alias] + rest;
    assert(a.skip(1) =~= rest);
    assert(expand_spec(a) =~= b);
    assert(expand_spec(b) == b);
    assert(expand_spec(c) == c);
    assert(b.skip(1) =~= rest);
    assert(c.skip(1) =~= rest);
    assert(wants_help(b) == wants_help(c)) by {
        if wants_help(b) {
            let k = choose|k: int| 0 <= k < b.len() && (#[trigger] b[k] == "-h"@ || b[k] == "--help"@);
            assert(k > 0);
            assert(c[k] == b[k]);
        }
        if wants_help(c) {
            let k = choose|k: int| 0 <= k < c.len() && (#[trigger] c[k] == "-h"@ || c[k] == "--help"@);
            assert(k > 0);
            assert(b[k] == c[k]);
        }
    }
}

/// Looking up a command's flag, name or alias finds that command, and no name or alias
/// reads as a flag or asks for help.
proof fn lemma_table_lookup(i: int)
    requires
        0 <= i < command_table().len(),
    ensures
        first_flag(command_table(), command_table()[i].flag, 0) == Some(i),
        first_flag(command_table(), command_table()[i].name, 0) is None,
        first_flag(command_table(), command_table()[i].alias, 0) is None,
        first_cmd(command_table(), command_table()[i].name, 0) == Some(i),
        first_cmd(command_table(), command_table()[i].alias, 0) == Some(i),
        command_table()[i].name != "-h"@ && command_table()[i].name != "--help"@,
        command_table()[i].alias != "-h"@ && command_table()[i].alias != "--help"@,
        !is_version_flag(command_table()[i].name) && !is_version_flag(command_table()[i].alias),
{
    reveal_strlit("init");
    reveal_strlit("i");
    reveal_strlit("-i");
    reveal_strlit("status");
    reveal_strlit("t");
    reveal_strlit("-t");
    reveal_strlit("save");
    reveal_strlit("s");
    reveal_strlit("-s");
    reveal_strlit("list");
    reveal_strlit("l");
    reveal_strlit("-l");
    reveal_strlit("show");
    reveal_strlit("v");
    reveal_strlit("-v");
    reveal_strlit("checkout");
    reveal_strlit("c");
    reveal_strlit("-c");
    reveal_strlit("diff");
    reveal_strlit("d");
    reveal_strlit("-d");
    reveal_strlit("gc");
    reveal_strlit("g");
    reveal_strlit("-g");
    reveal_strlit("-h");
    reveal_strlit("--help");
    reveal_strlit("--version");
    reveal_strlit("-V");
    reveal_with_fuel(first_flag, 9);
    reveal_with_fuel(first_cmd, 9);
    let t = command_table();
    assert(t[0].name.len() == 4 && t[0].name[0] == 'i' && t[0].name[1] == 'n');
    assert(t[0].alias.len() == 1 && t[0].alias[0] == 'i');
    assert(t[0].flag.len() == 2 && t[0].flag[0] == '-' && t[0].flag[1] == 'i');
    assert(t[1].name.len() == 6 && t[1].name[0] == 's' && t[1].name[1] == 't');
    assert(t[1].alias.len() == 1 && t[1].alias[0] == 't');
    assert(t[1].flag.len() == 2 && t[1].flag[0] == '-' && t[1].flag[1] == 't');
    assert(t[2].name.len() == 4 && t[2].name[0] == 's' && t[2].name[1] == 'a');
    assert(t[2].alias.len() == 1 && t[2].alias[0] == 's');
    assert(t[2].flag.len() == 2 && t[2].flag[0] == '-' && t[2].flag[1] == 's');
    assert(t[3].name.len() == 4 && t[3].name[0] == 'l' && t[3].name[1] == 'i');
    assert(t[3].alias.len() == 1 && t[3].alias[0] == 'l');
    assert(t[3].flag.len() == 2 && t[3].flag[0] == '-' && t[3].flag[1] == 'l');
    assert(t[4].name.len() == 4 && t[4].name[0] == 's' && t[4].name[1] == 'h');
    assert(t[4].alias.len() == 1 && t[4].alias[0] == 'v');
    assert(t[4].flag.len() == 2 && t[4].flag[0] == '-' && t[4].flag[1] == 'v');
    assert(t[5].name.len() == 8 && t[5].name[0] == 'c' && t[5].name[1] == 'h');
    assert(t[5].alias.len() == 1 && t[5].alias[0] == 'c');
    assert(t[5].flag.len() == 2 && t[5].flag[0] == '-' && t[5].flag[1] == 'c');
    assert(t[6].name.len() == 4 && t[6].name[0] == 'd' && t[6].name[1] == 'i');
    assert(t[6].alias.len() == 1 && t[6].alias[0] == 'd');
    assert(t[6].flag.len() == 2 && t[6].flag[0] == '-' && t[6].flag[1] == 'd');
    assert(t[7].name.len() == 2 && t[7].name[0] == 'g' && t[7].name[1] == 'c');
    assert(t[7].alias.len() == 1 && t[7].alias[0] == 'g');
    assert(t[7].flag.len() == 2 && t[7].flag[0] == '-' && t[7].flag[1] == 'g');
    assert("-h"@.len() == 2 && "-h"@[1] == 'h' && "--help"@.len() == 6);
    assert("-V"@.len() == 2 && "-V"@[0] == '-' && "--version"@.len() == 9);
}

} // verus!
