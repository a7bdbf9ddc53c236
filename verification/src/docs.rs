//! The command list: the argument parser, the help text and the cheat sheet written into
//! the data directory at init are all generated from it.
use vstd::prelude::*;
use crate::text::{
    append_str, add_spaces, cat, chars_of, join, join_spec, owned, repeat_spec, replace, replace_spec,
    str_eq,
};

verus! {

/// One sub-command: full name, one-letter alias, short flag, description, argument hint
/// (empty when it takes none), and whether it needs an initialised repository.
#[derive(Clone, Copy, Debug)]
pub struct Command {
    pub name: &'static str,
    pub alias: &'static str,
    pub flag: &'static str,
    pub desc: &'static str,
    pub hint: &'static str,
    pub needs_repo: bool,
}

/// A command seen as plain character sequences.
pub struct CommandView {
    pub name: Seq<char>,
    pub alias: Seq<char>,
    pub flag: Seq<char>,
    pub desc: Seq<char>,
    pub hint: Seq<char>,
    pub needs_repo: bool,
}

impl View for Command {
    type V = CommandView;

    open spec fn view(&self) -> CommandView {
        CommandView {
            name: self.name@,
            alias: self.alias@,
            flag: self.flag@,
            desc: self.desc@,
            hint: self.hint@,
            needs_repo: self.needs_repo,
        }
    }
}

pub open spec fn cmd_spec(
    name: &str,
    alias: &str,
    flag: &str,
    desc: &str,
    hint: &str,
    needs_repo: bool,
) -> CommandView {
    CommandView {
        name: name@,
        alias: alias@,
        flag: flag@,
        desc: desc@,
        hint: hint@,
        needs_repo,
    }
}

/// The eight commands, in the order in which help lists them.
pub open spec fn command_table() -> Seq<CommandView> {
    seq![
        cmd_spec("init", "i", "-i", "初始化当前目录", "", false),
        cmd_spec("status", "t", "-t", "查看工作区状态", "", true),
        cmd_spec("save", "s", "-s", "保存当前状态为新版本", "\"说明\"", true),
        cmd_spec("list", "l", "-l", "列出所有版本", "", true),
        cmd_spec("show", "v", "-v", "查看版本详情", "<版本>", true),
        cmd_spec("checkout", "c", "-c", "切换到指定版本", "<版本>", true),
        cmd_spec("diff", "d", "-d", "比较差异", "<版本> [版本2]", true),
        cmd_spec("gc", "g", "-g", "清理未被引用的对象", "", true),
    ]
}

fn cmd(
    name: &'static str,
    alias: &'static str,
    flag: &'static str,
    desc: &'static str,
    hint: &'static str,
    needs_repo: bool,
) -> (c: Command)
    ensures
        c@ == cmd_spec(name, alias, flag, desc, hint, needs_repo),
{
    Command { name, alias, flag, desc, hint, needs_repo }
}

/// The command list.
pub fn commands() -> (v: Vec<Command>)
    ensures
        v@.map_values(|c: Command| c@) == command_table(),
{
    let v = vec![
        cmd("init", "i", "-i", "初始化当前目录", "", false),
        cmd("status", "t", "-t", "查看工作区状态", "", true),
        cmd("save", "s", "-s", "保存当前状态为新版本", "\"说明\"", true),
        cmd("list", "l", "-l", "列出所有版本", "", true),
        cmd("show", "v", "-v", "查看版本详情", "<版本>", true),
        cmd("checkout", "c", "-c", "切换到指定版本", "<版本>", true),
        cmd("diff", "d", "-d", "比较差异", "<版本> [版本2]", true),
        cmd("gc", "g", "-g", "清理未被引用的对象", "", true),
    ];
    assert(v@.map_values(|c: Command| c@) =~= command_table());
    v
}

/// The index of the first command (from `from` on) whose flag is `arg`.
pub open spec fn first_flag(t: Seq<CommandView>, arg: Seq<char>, from: int) -> Option<int>
    decreases t.len() - from,
{
    if from < 0 || from >= t.len() {
        None
    } else if t[from].flag == arg {
        Some(from)
    } else {
        first_flag(t, arg, from + 1)
    }
}

/// The index of the first command (from `from` on) named or aliased `name`.
pub open spec fn first_cmd(t: Seq<CommandView>, name: Seq<char>, from: int) -> Option<int>
    decreases t.len() - from,
{
    if from < 0 || from >= t.len() {
        None
    } else if t[from].name == name || t[from].alias == name {
        Some(from)
    } else {
        first_cmd(t, name, from + 1)
    }
}

/// Maps a short flag (`-x`) to the name of its sub-command.
pub fn short_flag_to_cmd(arg: &str) -> (r: Option<&'static str>)
    ensures
        match first_flag(command_table(), arg@, 0) {
            Some(i) => r matches Some(name) && name@ == command_table()[i].name,
            None => r is None,
        },
{
    let cs = commands();
    let ghost t = command_table();
    let mut i: usize = 0;
    while i < cs.len()
        invariant
            0 <= i <= cs.len(),
            cs@.map_values(|c: Command| c@) == t,
            t == command_table(),
            first_flag(t, arg@, 0) == first_flag(t, arg@, i as int),
        decreases cs.len() - i,
    {
        assert(cs@[i as int]@ == t[i as int]);
        if str_eq(cs[i].flag, arg) {
            return Some(cs[i].name);
        }
        i += 1;
    }
    None
}

/// Maps a sub-command name or its one-letter alias to the command.
pub fn find_cmd(name: &str) -> (r: Option<Command>)
    ensures
        match first_cmd(command_table(), name@, 0) {
            Some(i) => r matches Some(c) && c@ == command_table()[i],
            None => r is None,
        },
{
    let cs = commands();
    let ghost t = command_table();
    let mut i: usize = 0;
    while i < cs.len()
        invariant
            0 <= i <= cs.len(),
            cs@.map_values(|c: Command| c@) == t,
            t == command_table(),
            first_cmd(t, name@, 0) == first_cmd(t, name@, i as int),
        decreases cs.len() - i,
    {
        assert(cs@[i as int]@ == t[i as int]);
        if str_eq(cs[i].name, name) || str_eq(cs[i].alias, name) {
            return Some(cs[i]);
        }
        i += 1;
    }
    None
}

// ------------------------------------------------------------------ rendering

/// The template of the cheat sheet; `{p}` stands for the program name and `{table}` for the
/// command table.
pub const HELP_DOC: &'static str = "\
# {p} 命令对照表

`{p}` 是下面命令的调用名，也就是你运行的那个程序（`snap` 或 `snap.exe`）。
三种写法完全等价。

| 想做的事 | 短写法 | 首字母 | 完整写法 |
| --- | --- | --- | --- |
{table}

版本ID可以只写前几位前缀，只要唯一即可（例如 `{p} -c a55b`）。

## 典型流程

    {p} -i                    只做一次，在当前目录建版本库
    {p} -t                    看改了什么：+ 新增 / M 修改 / - 删除
    {p} -s \"完成登录功能\"       把当前状态存成一个版本
    {p} -l                    看历史，带 * 的是当前所在版本
    {p} -d a55b               某个版本 vs 现在的工作区
    {p} -d a55b c0ec          两个版本对比
    {p} -c a55b               需要时切回那个版本
    {p} -g                    清理没被引用的残留对象

命令在项目的任意子目录里都能用，会自动向上找到项目根的 .snap。

## 切换版本时的安全提示

工作区里有没保存到任何版本的内容时，`-c` 会先列出来并询问 `继续? [y/N]`，
直接回车或答 n 就是取消，一个文件都不会动。执行前还会做一次预检（对象库
缺对象、目标路径被同名文件占住、文件只读等），有问题就一个文件都不改并报错
退出；只有全部成功才会更新当前版本。

## .snapignore 忽略规则（放在项目根目录）

    *.log          不含 \"/\" 的模式，匹配任意一层里的同名条目
    logs/          以 \"/\" 结尾表示目录规则，匹配该目录及其下所有内容
    keep/c.txt     含 \"/\" 的模式相对项目根目录定位，\"*\" 不跨目录层级
    src/**/*.py    \"**\" 可跨任意层级
    # 开头的行和空行忽略；不支持 \"!\" 反选

默认已经忽略：`.snap/` `.git/` `__pycache__/` `*.pyc` `*.pyo` `.DS_Store`
`*.swp` `*~`

## 其他要点

- 本程序自己的文件不会进版本库，放在项目里也不会把工具自己存进去。
- 相同内容只存一份；没改动的文件不会重复占用空间。
- 内容没变时 `-s` 不会产生新版本，也不会重复记录时间。
- 需要排除密钥、日志等文件，用 `.snapignore`（不支持 `!` 反选）。
- 实时帮助：`{p} -h` 或 `{p} --help`
";

/// " hint" when the command takes an argument, else nothing.
pub open spec fn hint_part(c: CommandView) -> Seq<char> {
    if c.hint.len() == 0 {
        Seq::empty()
    } else {
        " "@ + c.hint
    }
}

fn hint_of(c: &Command) -> (h: String)
    ensures
        h@ == hint_part(c@),
{
    if chars_of(c.hint).len() == 0 {
        String::new()
    } else {
        cat(" ", c.hint)
    }
}

/// One row of the cheat-sheet table.
pub open spec fn doc_row(c: CommandView, prog: Seq<char>) -> Seq<char> {
    let h = hint_part(c);
    "| "@ + c.desc + " | `"@ + prog + " "@ + c.flag + h + "` | `"@ + prog + " "@ + c.alias + h
        + "` | `"@ + prog + " "@ + c.name + h + "` |"@
}

/// The cheat sheet written into the data directory: the template with `{p}` replaced by the
/// program name, then `{table}` replaced by the rows joined with newlines.
pub open spec fn help_doc_spec(prog: Seq<char>) -> Seq<char> {
    let rows = command_table().map_values(|c: CommandView| doc_row(c, prog));
    replace_spec(replace_spec(HELP_DOC@, "{p}"@, prog), "{table}"@, join_spec(rows, "\n"@))
}

/// Generates the cheat sheet that init writes into the data directory.
pub fn render_help_doc(prog: &str) -> (r: String)
    ensures
        r@ == help_doc_spec(prog@),
{
    let cs = commands();
    let ghost t = command_table();
    let mut rows: Vec<String> = Vec::new();
    let mut i: usize = 0;
    while i < cs.len()
        invariant
            0 <= i <= cs.len(),
            cs@.map_values(|c: Command| c@) == t,
            rows@.map_values(|s: String| s@) == t.take(i as int).map_values(
                |c: CommandView| doc_row(c, prog@),
            ),
        decreases cs.len() - i,
    {
        let c = &cs[i];
        assert(c@ == t[i as int]);
        let h = hint_of(c);
        let mut row = owned("| ");
        append_str(&mut row, c.desc);
        append_str(&mut row, " | `");
        append_str(&mut row, prog);
        append_str(&mut row, " ");
        append_str(&mut row, c.flag);
        append_str(&mut row, h.as_str());
        append_str(&mut row, "` | `");
        append_str(&mut row, prog);
        append_str(&mut row, " ");
        append_str(&mut row, c.alias);
        append_str(&mut row, h.as_str());
        append_str(&mut row, "` | `");
        append_str(&mut row, prog);
        append_str(&mut row, " ");
        append_str(&mut row, c.name);
        append_str(&mut row, h.as_str());
        append_str(&mut row, "` |");
        assert(row@ == doc_row(t[i as int], prog@));
        let ghost before = rows@.map_values(|s: String| s@);
        rows.push(row);
        proof {
            assert(rows@.map_values(|s: String| s@) =~= before.push(doc_row(t[i as int], prog@)));
            assert(t.take(i + 1).map_values(|c: CommandView| doc_row(c, prog@)) =~= t.take(
                i as int,
            ).map_values(|c: CommandView| doc_row(c, prog@)).push(doc_row(t[i as int], prog@)));
        }
        i += 1;
    }
    assert(t.take(8) =~= t);
    let table = join(&rows, "\n");
    proof {
        reveal_strlit("{p}");
        reveal_strlit("{table}");
    }
    let step = replace(HELP_DOC, "{p}", prog);
    replace(step.as_str(), "{table}", table.as_str())
}

/// Number of spaces that pad `s` to `width` characters (none when it is already that long).
pub open spec fn pad_len(s: Seq<char>, width: nat) -> nat {
    if s.len() < width {
        (width - s.len()) as nat
    } else {
        0
    }
}

/// One example line of `--help`: the short form padded to 24 characters, then the description.
pub open spec fn example_line(c: CommandView, prog: Seq<char>) -> Seq<char> {
    let left = prog + " "@ + c.flag + hint_part(c);
    "  "@ + left + repeat_spec(' ', pad_len(left, 24)) + " "@ + c.desc
}

/// The example paragraph at the end of `--help`.
pub open spec fn examples_spec(prog: Seq<char>) -> Seq<char> {
    let lines = seq!["常用:"@] + command_table().map_values(
        |c: CommandView| example_line(c, prog),
    ) + seq![
        Seq::<char>::empty(),
        "子命令也能只写首字母（snap i / snap s \"说明\" ...），完整写法把 -x 换成"@,
        "子命令名即可（snap -c 相当于 snap checkout）。"@,
        "完整对照表: "@ + prog + " -h，或在项目里的 .snap/命令对照表.md"@,
        prog + " 管理的是运行命令时所在的目录，所以要先 cd 进项目再执行。"@,
    ];
    join_spec(lines, "\n"@)
}

/// The example paragraph at the end of `--help`.
pub fn render_examples(prog: &str) -> (r: String)
    ensures
        r@ == examples_spec(prog@),
{
    let cs = commands();
    let ghost t = command_table();
    let mut lines: Vec<String> = Vec::new();
    lines.push(owned("常用:"));
    let mut i: usize = 0;
    while i < cs.len()
        invariant
            0 <= i <= cs.len(),
            cs@.map_values(|c: Command| c@) == t,
            lines@.map_values(|s: String| s@) == seq!["常用:"@] + t.take(i as int).map_values(
                |c: CommandView| example_line(c, prog@),
            ),
        decreases cs.len() - i,
    {
        let c = &cs[i];
        assert(c@ == t[i as int]);
        let h = hint_of(c);
        let mut left = cat(prog, " ");
        append_str(&mut left, c.flag);
        append_str(&mut left, h.as_str());
        let n = chars_of(left.as_str()).len();
        let pad = if n < 24 {
            24 - n
        } else {
            0
        };
        let mut line = owned("  ");
        append_str(&mut line, left.as_str());
        add_spaces(&mut line, pad);
        append_str(&mut line, " ");
        append_str(&mut line, c.desc);
        assert(line@ == example_line(t[i as int], prog@));
        let ghost before = lines@.map_values(|s: String| s@);
        lines.push(line);
        proof {
            assert(lines@.map_values(|s: String| s@) =~= before.push(
                example_line(t[i as int], prog@),
            ));
            assert(t.take(i + 1).map_values(|c: CommandView| example_line(c, prog@)) =~= t.take(
                i as int,
            ).map_values(|c: CommandView| example_line(c, prog@)).push(
                example_line(t[i as int], prog@),
            ));
            assert(seq!["常用:"@] + t.take(i + 1).map_values(
                |c: CommandView| example_line(c, prog@),
            ) =~= (seq!["常用:"@] + t.take(i as int).map_values(
                |c: CommandView| example_line(c, prog@),
            )).push(example_line(t[i as int], prog@)));
        }
        i += 1;
    }
    assert(t.take(8) =~= t);
    lines.push(String::new());
    lines.push(owned("子命令也能只写首字母（snap i / snap s \"说明\" ...），完整写法把 -x 换成"));
    lines.push(owned("子命令名即可（snap -c 相当于 snap checkout）。"));
    let mut l4 = cat("完整对照表: ", prog);
    append_str(&mut l4, " -h，或在项目里的 .snap/命令对照表.md");
    lines.push(l4);
    let l5 = cat(prog, " 管理的是运行命令时所在的目录，所以要先 cd 进项目再执行。");
    lines.push(l5);
    proof {
        let lv = lines@.map_values(|s: String| s@);
        let spec_lines = seq!["常用:"@] + t.map_values(|c: CommandView| example_line(c, prog@))
            + seq![
            Seq::<char>::empty(),
            "子命令也能只写首字母（snap i / snap s \"说明\" ...），完整写法把 -x 换成"@,
            "子命令名即可（snap -c 相当于 snap checkout）。"@,
            "完整对照表: "@ + prog@ + " -h，或在项目里的 .snap/命令对照表.md"@,
            prog@ + " 管理的是运行命令时所在的目录，所以要先 cd 进项目再执行。"@,
        ];
        assert(lv =~= spec_lines);
    }
    join(&lines, "\n")
}

/// The names and aliases of all commands, interleaved: `init, i, status, t, ...`.
pub open spec fn name_pairs(t: Seq<CommandView>) -> Seq<Seq<char>>
    decreases t.len(),
{
    if t.len() == 0 {
        Seq::empty()
    } else {
        name_pairs(t.drop_last()) + seq![t.last().name, t.last().alias]
    }
}

/// `{init,i,status,t,...}` without the braces.
pub open spec fn name_list() -> Seq<char> {
    join_spec(name_pairs(command_table()), ","@)
}

fn names_joined() -> (r: String)
    ensures
        r@ == name_list(),
{
    let cs = commands();
    let ghost t = command_table();
    let mut names: Vec<String> = Vec::new();
    let mut i: usize = 0;
    while i < cs.len()
        invariant
            0 <= i <= cs.len(),
            cs@.map_values(|c: Command| c@) == t,
            names@.map_values(|s: String| s@) == name_pairs(t.take(i as int)),
        decreases cs.len() - i,
    {
        assert(cs@[i as int]@ == t[i as int]);
        assert(t.take(i + 1).drop_last() =~= t.take(i as int));
        names.push(owned(cs[i].name));
        names.push(owned(cs[i].alias));
        assert(names@.map_values(|s: String| s@) =~= name_pairs(t.take(i + 1)));
        i += 1;
    }
    assert(t.take(8) =~= t);
    join(&names, ",")
}

/// One command line of `--help`: "name (alias)" padded to 18 characters, two spaces, the
/// description.
pub open spec fn help_line(c: CommandView) -> Seq<char> {
    let head = c.name + " ("@ + c.alias + ")"@;
    "    "@ + head + repeat_spec(' ', pad_len(head, 18)) + "  "@ + c.desc + "\n"@
}

/// The command lines of `--help`, concatenated.
pub open spec fn help_lines(t: Seq<CommandView>) -> Seq<char>
    decreases t.len(),
{
    if t.len() == 0 {
        Seq::empty()
    } else {
        help_lines(t.drop_last()) + help_line(t.last())
    }
}

/// The full `--help` text (laid out as argparse lays it out).
pub open spec fn help_spec(prog: Seq<char>) -> Seq<char> {
    "usage: "@ + prog + " [-h] {"@ + name_list() + "} ...\n\n"@ + "极简项目版本快照工具\n\n"@
        + "positional arguments:\n"@ + "  {"@ + name_list() + "}\n"@ + help_lines(command_table())
        + "\noptions:\n"@ + "  -h, --help            show this help message and exit\n\n"@
        + examples_spec(prog)
}

/// The full `--help` text.
pub fn render_help(prog: &str) -> (r: String)
    ensures
        r@ == help_spec(prog@),
{
    let list = names_joined();
    let mut s = String::new();
    append_str(&mut s, "usage: ");
    append_str(&mut s, prog);
    append_str(&mut s, " [-h] {");
    append_str(&mut s, list.as_str());
    append_str(&mut s, "} ...\n\n");
    append_str(&mut s, "极简项目版本快照工具\n\n");
    append_str(&mut s, "positional arguments:\n");
    append_str(&mut s, "  {");
    append_str(&mut s, list.as_str());
    append_str(&mut s, "}\n");
    let ghost before = s@;
    let cs = commands();
    let ghost t = command_table();
    let mut i: usize = 0;
    while i < cs.len()
        invariant
            0 <= i <= cs.len(),
            cs@.map_values(|c: Command| c@) == t,
            s@ == before + help_lines(t.take(i as int)),
        decreases cs.len() - i,
    {
        let c = &cs[i];
        assert(c@ == t[i as int]);
        let mut head = owned(c.name);
        append_str(&mut head, " (");
        append_str(&mut head, c.alias);
        append_str(&mut head, ")");
        let n = chars_of(head.as_str()).len();
        let pad = if n < 18 {
            18 - n
        } else {
            0
        };
        let ghost s0 = s@;
        append_str(&mut s, "    ");
        append_str(&mut s, head.as_str());
        add_spaces(&mut s, pad);
        append_str(&mut s, "  ");
        append_str(&mut s, c.desc);
        append_str(&mut s, "\n");
        proof {
            assert(t.take(i + 1).drop_last() =~= t.take(i as int));
            assert(s@ =~= s0 + help_line(t[i as int]));
            assert(s@ =~= before + help_lines(t.take(i + 1)));
        }
        i += 1;
    }
    assert(t.take(8) =~= t);
    append_str(&mut s, "\noptions:\n");
    append_str(&mut s, "  -h, --help            show this help message and exit\n\n");
    let ex = render_examples(prog);
    append_str(&mut s, ex.as_str());
    s
}

/// The one-line usage reminder printed with usage errors.
pub open spec fn usage_spec(prog: Seq<char>) -> Seq<char> {
    "usage: "@ + prog + " [-h] {"@ + name_list() + "} ..."@
}

/// The one-line usage reminder printed with usage errors.
pub fn usage_line(prog: &str) -> (r: String)
    ensures
        r@ == usage_spec(prog@),
{
    let list = names_joined();
    let mut s = owned("usage: ");
    append_str(&mut s, prog);
    append_str(&mut s, " [-h] {");
    append_str(&mut s, list.as_str());
    append_str(&mut s, "} ...");
    s
}

} // verus!
