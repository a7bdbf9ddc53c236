//! Paths as text: joining (as `PathBuf::push` does with "/" separators), splitting into
//! components (as `Path::components` does), and the checks on the relative paths stored in
//! versions.
use vstd::prelude::*;
use crate::error::SnapError;
use crate::ignore::{lemma_split_join, lemma_split_nonempty};
use crate::text::{
    append_str, cat, chars_of, debug_quoted, debug_str, join, join_spec, lowercase_spec, owned,
    push_char, replace_char, replace_char_spec, split, split_spec, str_eq, string_of,
    string_of_range, to_lowercase,
};

verus! {

/// `base` with `seg` pushed on: `seg` replaces it when absolute; otherwise a "/" goes between
/// them unless `base` is empty or already ends with one.
pub open spec fn path_push(base: Seq<char>, seg: Seq<char>) -> Seq<char> {
    if seg.len() > 0 && seg[0] == '/' {
        seg
    } else if base.len() == 0 || base.last() == '/' {
        base + seg
    } else {
        base + seq!['/'] + seg
    }
}

/// `base` with each of `segs` pushed on in turn.
pub open spec fn path_push_all(base: Seq<char>, segs: Seq<Seq<char>>) -> Seq<char>
    decreases segs.len(),
{
    if segs.len() == 0 {
        base
    } else {
        path_push(path_push_all(base, segs.drop_last()), segs.last())
    }
}

/// Pushes `seg` onto the path `base`.
pub fn push_path(base: &mut String, seg: &str)
    ensures
        final(base)@ == path_push(old(base)@, seg@),
{
    let s = chars_of(seg);
    if s.len() > 0 && s[0] == '/' {
        *base = owned(seg);
        return;
    }
    let b = chars_of(base.as_str());
    if b.len() == 0 || b[b.len() - 1] == '/' {
        append_str(base, seg);
    } else {
        push_char(base, '/');
        append_str(base, seg);
    }
}

/// The "/"-separated relative path `rel` joined onto `root`, one segment at a time.
pub open spec fn join_rel_spec(root: Seq<char>, rel: Seq<char>) -> Seq<char> {
    path_push_all(root, split_spec(rel, '/'))
}

/// Joins a "/"-separated relative path onto a root directory.
pub fn join_rel(root: &str, rel: &str) -> (p: String)
    ensures
        p@ == join_rel_spec(root@, rel@),
{
    let rv = chars_of(rel);
    let segs = split(&rv, '/');
    let ghost sv = segs@.map_values(|q: Vec<char>| q@);
    let mut p = owned(root);
    let mut i: usize = 0;
    while i < segs.len()
        invariant
            0 <= i <= segs.len(),
            sv == segs@.map_values(|q: Vec<char>| q@),
            p@ == path_push_all(root@, sv.take(i as int)),
        decreases segs.len() - i,
    {
        let seg = string_of(&segs[i]);
        push_path(&mut p, seg.as_str());
        assert(sv.take(i + 1).drop_last() =~= sv.take(i as int));
        i += 1;
    }
    assert(sv.take(segs.len() as int) =~= sv);
    p
}

/// An ASCII letter.
pub open spec fn is_ascii_letter(c: char) -> bool {
    ('a' <= c && c <= 'z') || ('A' <= c && c <= 'Z')
}

/// On Windows (`windows`), `p` starts with a drive prefix such as "C:".
pub open spec fn has_drive(p: Seq<char>, windows: bool) -> bool {
    windows && p.len() >= 2 && is_ascii_letter(p[0]) && p[1] == ':'
}

/// What follows the drive prefix, with "\" read as "/" on Windows (where both separate).
pub open spec fn path_body(p: Seq<char>, windows: bool) -> Seq<char> {
    let rest = if has_drive(p, windows) {
        p.skip(2)
    } else {
        p
    };
    if windows {
        replace_char_spec(rest, '\\', '/')
    } else {
        rest
    }
}

/// The text of the root component: "\" on Windows, "/" elsewhere.
pub open spec fn root_text(windows: bool) -> Seq<char> {
    if windows {
        seq!['\\']
    } else {
        seq!['/']
    }
}

/// The components of a path, as `Path::components` yields them: on Windows first the drive
/// prefix ("C:"), then the root (after a leading separator), then the pieces between
/// separators, empty pieces and "." dropped, except a "." that starts a path without a
/// root. On Windows "/" and "\" both separate; a `\\server\share` prefix is read as a root
/// followed by two pieces.
pub open spec fn components_spec(p: Seq<char>, windows: bool) -> Seq<Seq<char>> {
    let body = path_body(p, windows);
    let rooted = body.len() > 0 && body[0] == '/';
    (if has_drive(p, windows) {
        seq![p.take(2)]
    } else {
        Seq::empty()
    }) + (if rooted {
        seq![root_text(windows)]
    } else {
        Seq::empty()
    }) + keep_parts(split_spec(body, '/'), rooted, 0)
}

/// The pieces from `i` on that are real components.
pub open spec fn keep_parts(parts: Seq<Seq<char>>, rooted: bool, i: int) -> Seq<Seq<char>>
    decreases parts.len() - i,
{
    if i < 0 || i >= parts.len() {
        Seq::empty()
    } else {
        let q = parts[i];
        let keep = q.len() > 0 && (q != "."@ || (i == 0 && !rooted));
        (if keep {
            seq![q]
        } else {
            Seq::empty()
        }) + keep_parts(parts, rooted, i + 1)
    }
}

fn is_letter(c: char) -> (b: bool)
    ensures
        b == is_ascii_letter(c),
{
    ('a' <= c && c <= 'z') || ('A' <= c && c <= 'Z')
}

/// The drive prefix and the body of `p` (see `has_drive` and `path_body`).
fn split_drive(pv: &Vec<char>, windows: bool) -> (r: (bool, Vec<char>))
    ensures
        r.0 == has_drive(pv@, windows),
        r.1@ == path_body(pv@, windows),
{
    let drive = windows && pv.len() >= 2 && is_letter(pv[0]) && pv[1] == ':';
    let start: usize = if drive {
        2
    } else {
        0
    };
    let ghost rest = pv@.skip(start as int);
    let mut body: Vec<char> = Vec::new();
    let mut i: usize = start;
    while i < pv.len()
        invariant
            start <= i <= pv.len(),
            rest == pv@.skip(start as int),
            body@ == (if windows {
                replace_char_spec(pv@.subrange(start as int, i as int), '\\', '/')
            } else {
                pv@.subrange(start as int, i as int)
            }),
        decreases pv.len() - i,
    {
        let c = pv[i];
        if windows && c == '\\' {
            body.push('/');
        } else {
            body.push(c);
        }
        assert(pv@.subrange(start as int, i + 1) =~= pv@.subrange(start as int, i as int).push(c));
        i += 1;
    }
    assert(pv@.subrange(start as int, pv.len() as int) =~= rest);
    (drive, body)
}

/// The components of a path.
pub fn components(p: &str, windows: bool) -> (c: Vec<String>)
    ensures
        c@.map_values(|s: String| s@) == components_spec(p@, windows),
{
    let pv = chars_of(p);
    let (drive, body) = split_drive(&pv, windows);
    let rooted = body.len() > 0 && body[0] == '/';
    let parts = split(&body, '/');
    let ghost ps = parts@.map_values(|q: Vec<char>| q@);
    let mut out: Vec<String> = Vec::new();
    let ghost d: Seq<Seq<char>> = if drive {
        seq![pv@.take(2)]
    } else {
        Seq::empty()
    };
    let ghost rt: Seq<Seq<char>> = if rooted {
        seq![root_text(windows)]
    } else {
        Seq::empty()
    };
    if drive {
        let dp = string_of_range(&pv, 0, 2);
        assert(dp@ =~= pv@.take(2));
        out.push(dp);
    }
    assert(out@.map_values(|s: String| s@) =~= d);
    if rooted {
        let r = if windows {
            owned("\\")
        } else {
            owned("/")
        };
        proof {
            reveal_strlit("\\");
            reveal_strlit("/");
            assert(r@ =~= root_text(windows));
        }
        let ghost before = out@.map_values(|s: String| s@);
        out.push(r);
        assert(out@.map_values(|s: String| s@) =~= before.push(r@));
    }
    let ghost head = out@.map_values(|s: String| s@);
    assert(head =~= d + rt);
    assert(head =~= (if drive {
        seq![pv@.take(2)]
    } else {
        Seq::empty()
    }) + (if rooted {
        seq![root_text(windows)]
    } else {
        Seq::empty()
    }));
    let mut i: usize = 0;
    assert(head + keep_parts(ps, rooted, 0) =~= components_spec(p@, windows));
    while i < parts.len()
        invariant
            0 <= i <= parts.len(),
            ps == parts@.map_values(|q: Vec<char>| q@),
            rooted == (body@.len() > 0 && body@[0] == '/'),
            out@.map_values(|s: String| s@) + keep_parts(ps, rooted, i as int) == components_spec(
                p@,
                windows,
            ),
        decreases parts.len() - i,
    {
        let q = &parts[i];
        let is_dot = q.len() == 1 && q[0] == '.';
        proof {
            reveal_strlit(".");
            assert(is_dot == (ps[i as int] == "."@)) by {
                reveal_strlit(".");
                if is_dot {
                    assert(ps[i as int] =~= "."@);
                }
            }
        }
        let keep = q.len() > 0 && (!is_dot || (i == 0 && !rooted));
        let ghost before = out@.map_values(|s: String| s@);
        let ghost rest = keep_parts(ps, rooted, i + 1);
        if keep {
            out.push(string_of(q));
            assert(out@.map_values(|s: String| s@) =~= before.push(ps[i as int]));
            assert(before.push(ps[i as int]) + rest =~= before + (seq![ps[i as int]] + rest));
        } else {
            assert(before + (Seq::<Seq<char>>::empty() + rest) =~= before + rest);
        }
        i += 1;
    }
    out
}

/// The last component when it is a name (not the drive prefix, the root, "." or ".."), as
/// `Path::file_name`.
pub open spec fn file_name_spec(p: Seq<char>, windows: bool) -> Option<Seq<char>> {
    let c = components_spec(p, windows);
    if c.len() > 0 && !(has_drive(p, windows) && c.len() == 1) && c.last() != root_text(windows)
        && c.last() != "."@ && c.last() != ".."@ {
        Some(c.last())
    } else {
        None
    }
}

/// The last component of `p` when it is a name.
pub fn file_name(p: &str, windows: bool) -> (r: Option<String>)
    ensures
        match r {
            Some(n) => file_name_spec(p@, windows) == Some(n@),
            None => file_name_spec(p@, windows) == None::<Seq<char>>,
        },
{
    let comps = components(p, windows);
    let pv = chars_of(p);
    let drive = windows && pv.len() >= 2 && is_letter(pv[0]) && pv[1] == ':';
    proof {
        reveal_strlit("/");
        reveal_strlit("\\");
        reveal_strlit(".");
        reveal_strlit("..");
    }
    let root = if windows {
        "\\"
    } else {
        "/"
    };
    assert(root@ == root_text(windows));
    let n = comps.len();
    if n > 0 && !(drive && n == 1) && !str_eq(comps[n - 1].as_str(), root) && !str_eq(
        comps[n - 1].as_str(),
        ".",
    ) && !str_eq(comps[n - 1].as_str(), "..") {
        assert(comps@[n - 1]@ == components_spec(p@, windows).last());
        Some(comps[n - 1].clone())
    } else {
        None
    }
}

/// The index of the last "." among the first `i` characters of `s` (-1 if none).
pub open spec fn last_dot_before(s: Seq<char>, i: int) -> int
    decreases i,
{
    if i <= 0 {
        -1
    } else if s[i - 1] == '.' {
        i - 1
    } else {
        last_dot_before(s, i - 1)
    }
}

/// A file name without its extension: up to the last ".", unless there is none or it is
/// the first character (as `Path::file_stem`).
pub open spec fn stem_of_name(name: Seq<char>) -> Seq<char> {
    let i = last_dot_before(name, name.len() as int);
    if i <= 0 {
        name
    } else {
        name.take(i)
    }
}

/// `Path::file_stem`.
pub open spec fn file_stem_spec(p: Seq<char>, windows: bool) -> Option<Seq<char>> {
    match file_name_spec(p, windows) {
        Some(n) => Some(stem_of_name(n)),
        None => None,
    }
}

/// The file name of `p` without its extension.
pub fn file_stem(p: &str, windows: bool) -> (r: Option<String>)
    ensures
        match r {
            Some(s) => file_stem_spec(p@, windows) == Some(s@),
            None => file_stem_spec(p@, windows) == None::<Seq<char>>,
        },
{
    let name = match file_name(p, windows) {
        Some(n) => n,
        None => {
            return None;
        },
    };
    let v = chars_of(name.as_str());
    let mut i: usize = v.len();
    while i > 0 && v[i - 1] != '.'
        invariant
            0 <= i <= v.len(),
            last_dot_before(v@, v.len() as int) == last_dot_before(v@, i as int),
        decreases i,
    {
        i -= 1;
    }
    // i == 0 (no dot) or v[i-1] is the last dot
    if i <= 1 {
        Some(name)
    } else {
        Some(string_of_range(&v, 0, i - 1))
    }
}

/// An ASCII letter as the upper-case letter's code, any other character as its own code.
pub open spec fn upper_code(c: char) -> int {
    if 'a' <= c && c <= 'z' {
        c as int - 32
    } else {
        c as int
    }
}

/// A drive prefix component ("C:").
pub open spec fn is_drive_comp(c: Seq<char>) -> bool {
    c.len() == 2 && is_ascii_letter(c[0]) && c[1] == ':'
}

/// Two components are the same component: equal text, or (`drive_pos`: the first
/// component on Windows) two drive prefixes whose letters differ only in case.
pub open spec fn comp_same(a: Seq<char>, b: Seq<char>, drive_pos: bool) -> bool {
    a == b || (drive_pos && is_drive_comp(a) && is_drive_comp(b) && upper_code(a[0]) == upper_code(
        b[0],
    ))
}

/// `a` begins with the components `b` (as `Path::starts_with` compares them).
pub open spec fn comps_prefix(a: Seq<Seq<char>>, b: Seq<Seq<char>>, windows: bool) -> bool {
    b.len() <= a.len() && forall|i: int|
        0 <= i < b.len() ==> comp_same(#[trigger] a[i], b[i], windows && i == 0)
}

/// `p` relative to `base`, components joined with "/" (`None` when `base` is not a prefix),
/// as `Path::strip_prefix` followed by the remaining components.
pub open spec fn rel_posix_spec(base: Seq<char>, p: Seq<char>, windows: bool) -> Option<
    Seq<char>,
> {
    let cb = components_spec(base, windows);
    let cp = components_spec(p, windows);
    if comps_prefix(cp, cb, windows) {
        Some(join_spec(cp.skip(cb.len() as int), "/"@))
    } else {
        None
    }
}

fn upper(c: char) -> (n: u32)
    ensures
        n == upper_code(c),
{
    if 'a' <= c && c <= 'z' {
        (c as u32) - 32
    } else {
        c as u32
    }
}

fn same_comp(a: &str, b: &str, drive_pos: bool) -> (r: bool)
    ensures
        r == comp_same(a@, b@, drive_pos),
{
    if str_eq(a, b) {
        return true;
    }
    if !drive_pos {
        return false;
    }
    let av = chars_of(a);
    let bv = chars_of(b);
    av.len() == 2 && is_letter(av[0]) && av[1] == ':' && bv.len() == 2 && is_letter(bv[0])
        && bv[1] == ':' && upper(av[0]) == upper(bv[0])
}

/// `p` relative to `base` in "/" form, or `None` when `p` is not under `base`.
pub fn rel_posix(base: &str, p: &str, windows: bool) -> (r: Option<String>)
    ensures
        match r {
            Some(s) => rel_posix_spec(base@, p@, windows) == Some(s@),
            None => rel_posix_spec(base@, p@, windows) is None,
        },
{
    let cb = components(base, windows);
    let cp = components(p, windows);
    let ghost bv = cb@.map_values(|s: String| s@);
    let ghost pv = cp@.map_values(|s: String| s@);
    if cb.len() > cp.len() {
        assert(!comps_prefix(pv, bv, windows));
        return None;
    }
    let mut i: usize = 0;
    while i < cb.len()
        invariant
            0 <= i <= cb.len() <= cp.len(),
            bv == cb@.map_values(|s: String| s@),
            pv == cp@.map_values(|s: String| s@),
            bv == components_spec(base@, windows),
            pv == components_spec(p@, windows),
            forall|k: int| 0 <= k < i ==> comp_same(#[trigger] pv[k], bv[k], windows && k == 0),
        decreases cb.len() - i,
    {
        if !same_comp(cp[i].as_str(), cb[i].as_str(), windows && i == 0) {
            assert(!comp_same(pv[i as int], bv[i as int], windows && i == 0));
            return None;
        }
        i += 1;
    }
    assert(comps_prefix(pv, bv, windows));
    let mut rest: Vec<String> = Vec::new();
    let mut j = cb.len();
    while j < cp.len()
        invariant
            cb.len() <= j <= cp.len(),
            pv == cp@.map_values(|s: String| s@),
            rest@.map_values(|s: String| s@) == pv.subrange(cb.len() as int, j as int),
        decreases cp.len() - j,
    {
        let ghost before = rest@.map_values(|s: String| s@);
        let x = cp[j].clone();
        assert(x@ == pv[j as int]);
        rest.push(x);
        assert(rest@.map_values(|s: String| s@) =~= before.push(pv[j as int]));
        assert(pv.subrange(cb.len() as int, j + 1) =~= pv.subrange(cb.len() as int, j as int).push(
            pv[j as int],
        ));
        j += 1;
    }
    assert(pv.subrange(cb.len() as int, cp.len() as int) =~= pv.skip(cb.len() as int));
    Some(join(&rest, "/"))
}

/// The comparison key of a path: "/" turned into "\", lower-cased on Windows (`windows`),
/// where file names compare without case.
pub open spec fn norm_key_spec(p: Seq<char>, windows: bool) -> Seq<char> {
    let s = replace_char_spec(p, '/', '\\');
    if windows {
        lowercase_spec(s)
    } else {
        s
    }
}

/// The comparison key of a path.
pub fn norm_key(p: &str, windows: bool) -> (k: String)
    ensures
        k@ == norm_key_spec(p@, windows),
{
    let s = replace_char(p, '/', '\\');
    if windows {
        to_lowercase(s.as_str())
    } else {
        s
    }
}

/// Whether the relative path `rel` under `root` is the running program `self_path` itself
/// (the tool never stores itself): the last "/"-segment of `rel` must be the program's file
/// name, and then both full paths must have the same key. `windows`: paths are Windows
/// paths ("\" separates too, a drive prefix may start them, case does not count).
pub open spec fn is_self_path_spec(
    root: Seq<char>,
    rel: Seq<char>,
    self_path: Option<Seq<char>>,
    windows: bool,
) -> bool {
    match self_path {
        None => false,
        Some(sp) => {
            let name = split_spec(rel, '/').last();
            let sp_name = match file_name_spec(sp, windows) {
                Some(n) => n,
                None => Seq::empty(),
            };
            name == sp_name && norm_key_spec(join_rel_spec(root, rel), windows) == norm_key_spec(
                sp,
                windows,
            )
        },
    }
}

/// Whether `rel` under `root` is the running program itself.
pub fn is_self_path(root: &str, rel: &str, self_path: Option<&str>, windows: bool) -> (b: bool)
    ensures
        b == is_self_path_spec(root@, rel@, match self_path {
            Some(s) => Some(s@),
            None => None,
        }, windows),
{
    let sp = match self_path {
        None => {
            return false;
        },
        Some(s) => s,
    };
    let rv = chars_of(rel);
    let parts = split(&rv, '/');
    let name = string_of(&parts[parts.len() - 1]);
    let sp_name = match file_name(sp, windows) {
        Some(n) => n,
        None => String::new(),
    };
    if !str_eq(name.as_str(), sp_name.as_str()) {
        return false;
    }
    let full = join_rel(root, rel);
    let a = norm_key(full.as_str(), windows);
    let b = norm_key(sp, windows);
    str_eq(a.as_str(), b.as_str())
}

/// Whether the relative path `rel` stored in a version may be used: it must be non-empty
/// ("illegal" otherwise), and with "\" read as "/" it must neither start at the root,
/// nor contain a ".." segment, nor (on Windows) be absolute, i.e. start with a drive
/// prefix and a separator ("out of bounds" otherwise).
pub open spec fn rel_escapes(rel: Seq<char>, windows: bool) -> bool {
    let norm = replace_char_spec(rel, '\\', '/');
    ||| (norm.len() > 0 && norm[0] == '/')
    ||| split_spec(norm, '/').contains(".."@)
    ||| (has_drive(norm, windows) && norm.len() > 2 && norm[2] == '/')
}

/// Checks a relative path read from a version, so that it cannot leave the work tree.
pub fn check_rel(rel: &str, windows: bool) -> (r: Result<(), SnapError>)
    ensures
        rel@.len() == 0 ==> (r matches Err(e) && e@ == "版本里的路径非法: "@ + debug_str(rel@)),
        rel@.len() > 0 && rel_escapes(rel@, windows) ==> (r matches Err(e) && e@
            == "版本里的路径越界: "@ + debug_str(rel@)),
        r is Ok <==> rel@.len() > 0 && !rel_escapes(rel@, windows),
{
    let rv = chars_of(rel);
    if rv.len() == 0 {
        let q = debug_quoted(rel);
        let msg = cat("版本里的路径非法: ", q.as_str());
        return Err(SnapError::from_string(msg));
    }
    let norm = replace_char(rel, '\\', '/');
    let nv = chars_of(norm.as_str());
    let parts = split(&nv, '/');
    let ghost pv = parts@.map_values(|q: Vec<char>| q@);
    let mut dotdot = false;
    let mut i: usize = 0;
    proof {
        reveal_strlit("..");
    }
    while i < parts.len()
        invariant
            0 <= i <= parts.len(),
            pv == parts@.map_values(|q: Vec<char>| q@),
            dotdot == (exists|k: int| 0 <= k < i && #[trigger] pv[k] == ".."@),
        decreases parts.len() - i,
    {
        let q = &parts[i];
        let is_dd = q.len() == 2 && q[0] == '.' && q[1] == '.';
        assert(is_dd == (pv[i as int] == ".."@)) by {
            reveal_strlit("..");
            if is_dd {
                assert(pv[i as int] =~= ".."@);
            }
        }
        if is_dd {
            dotdot = true;
        }
        i += 1;
    }
    proof {
        if dotdot {
            let k = choose|k: int| 0 <= k < parts.len() && #[trigger] pv[k] == ".."@;
            assert(pv.contains(".."@));
        }
        if pv.contains(".."@) {
            let k = choose|k: int| 0 <= k < pv.len() && pv[k] == ".."@;
            assert(pv[k] == ".."@);
        }
    }
    let drive_abs = windows && nv.len() > 2 && is_letter(nv[0]) && nv[1] == ':' && nv[2] == '/';
    if (nv.len() > 0 && nv[0] == '/') || dotdot || drive_abs {
        let q = debug_quoted(rel);
        let msg = cat("版本里的路径越界: ", q.as_str());
        return Err(SnapError::from_string(msg));
    }
    Ok(())
}


// ------------------------------------------------------------------ joining, then relativising

/// A "/"-segment of a relative path that comes back as one component: not empty, not ".",
/// and (on Windows) without "\".
pub open spec fn plain_segment(q: Seq<char>, windows: bool) -> bool {
    q.len() > 0 && q != "."@ && !(windows && q.contains('\\'))
}

/// `root` as `path_push` leaves it before a relative segment: with a "/" added unless it is
/// empty or already ends with one.
pub open spec fn glued(root: Seq<char>) -> Seq<char> {
    if root.len() == 0 || root.last() == '/' {
        root
    } else {
        root + seq!['/']
    }
}

proof fn lemma_split_no_sep(s: Seq<char>)
    ensures
        forall|i: int|
            0 <= i < split_spec(s, '/').len() ==> !(#[trigger] split_spec(s, '/')[i]).contains('/'),
    decreases s.len(),
{
    lemma_split_nonempty(s);
    if s.len() > 0 {
        let p = s.drop_last();
        lemma_split_no_sep(p);
        lemma_split_nonempty(p);
        let sp = split_spec(p, '/');
        if s.last() != '/' {
            assert forall|i: int| 0 <= i < split_spec(s, '/').len() implies !(
            #[trigger] split_spec(s, '/')[i]).contains('/') by {
                if i == sp.len() - 1 {
                    let q = sp.last().push(s.last());
                    assert(split_spec(s, '/')[i] == q);
                    if q.contains('/') {
                        let k = choose|k: int| 0 <= k < q.len() && q[k] == '/';
                        if k < sp.last().len() {
                            assert(sp.last()[k] == '/');
                        }
                    }
                }
            }
        }
    }
}

proof fn lemma_join_update(ps: Seq<Seq<char>>, c: char)
    requires
        ps.len() >= 1,
    ensures
        join_spec(ps.update(ps.len() - 1, ps.last().push(c)), "/"@) == join_spec(ps, "/"@).push(c),
{
    let qs = ps.update(ps.len() - 1, ps.last().push(c));
    if ps.len() == 1 {
        assert(qs[0] == ps[0].push(c));
    } else {
        assert(qs.drop_last() =~= ps.drop_last());
        assert(join_spec(qs, "/"@) =~= join_spec(ps, "/"@).push(c));
    }
}

/// Joining the "/"-pieces of `s` with "/" gives `s` back.
proof fn lemma_join_split(s: Seq<char>)
    ensures
        join_spec(split_spec(s, '/'), "/"@) == s,
    decreases s.len(),
{
    reveal_strlit("/");
    if s.len() == 0 {
        assert(split_spec(s, '/') =~= seq![Seq::<char>::empty()]);
    } else {
        let p = s.drop_last();
        lemma_join_split(p);
        lemma_split_nonempty(p);
        let sp = split_spec(p, '/');
        if s.last() == '/' {
            let q = sp.push(Seq::<char>::empty());
            assert(q.drop_last() =~= sp);
            assert(join_spec(q, "/"@) =~= p + "/"@ + Seq::<char>::empty());
            assert(s =~= p + "/"@);
        } else {
            lemma_join_update(sp, s.last());
            assert(s =~= p.push(s.last()));
        }
    }
}

/// Pushing the segments one by one is gluing on their "/"-join.
proof fn lemma_push_all(root: Seq<char>, segs: Seq<Seq<char>>)
    requires
        segs.len() >= 1,
        forall|i: int| 0 <= i < segs.len() ==> (#[trigger] segs[i]).len() > 0 && !segs[i].contains('/'),
    ensures
        path_push_all(root, segs) == glued(root) + join_spec(segs, "/"@),
    decreases segs.len(),
{
    reveal_strlit("/");
    let last = segs.last();
    assert(last[0] != '/') by {
        assert(segs[segs.len() - 1] == last);
        if last[0] == '/' {
            assert(last.contains('/'));
        }
    }
    assert("/"@ =~= seq!['/']);
    if segs.len() == 1 {
        assert(segs.drop_last() =~= Seq::<Seq<char>>::empty());
        assert(path_push_all(root, segs.drop_last()) == root);
        assert(path_push_all(root, segs) == path_push(root, last));
        assert(join_spec(segs, "/"@) == segs[0]);
        if root.len() == 0 || root.last() == '/' {
            assert(path_push(root, last) == root + last);
        } else {
            assert(path_push(root, last) == root + seq!['/'] + last);
            assert(root + seq!['/'] + last =~= (root + seq!['/']) + last);
        }
    } else {
        let front = segs.drop_last();
        assert forall|i: int| 0 <= i < front.len() implies (#[trigger] front[i]).len() > 0
            && !front[i].contains('/') by {
            assert(front[i] == segs[i]);
        }
        lemma_push_all(root, front);
        let base = glued(root) + join_spec(front, "/"@);
        lemma_join_last(front);
        assert(base.len() > 0 && base.last() != '/');
        assert(path_push_all(root, segs) == path_push(path_push_all(root, front), last));
        assert(path_push(base, last) =~= base + seq!['/'] + last);
        assert(join_spec(segs, "/"@) =~= join_spec(front, "/"@) + "/"@ + last);
        assert(base + seq!['/'] + last =~= glued(root) + join_spec(segs, "/"@));
    }
}

/// The "/"-join of non-empty segments without "/" is non-empty and does not end with "/".
proof fn lemma_join_last(segs: Seq<Seq<char>>)
    requires
        segs.len() >= 1,
        forall|i: int| 0 <= i < segs.len() ==> (#[trigger] segs[i]).len() > 0 && !segs[i].contains('/'),
    ensures
        join_spec(segs, "/"@).len() > 0,
        join_spec(segs, "/"@).last() == segs.last().last(),
    decreases segs.len(),
{
    reveal_strlit("/");
    assert(segs[segs.len() - 1] == segs.last());
    if segs.len() > 1 {
        assert(join_spec(segs, "/"@) == join_spec(segs.drop_last(), "/"@) + "/"@ + segs.last());
    }
}

/// The pieces before position `i` decide nothing after it.
proof fn lemma_keep_concat(p1: Seq<Seq<char>>, p2: Seq<Seq<char>>, rooted: bool, i: int)
    requires
        0 <= i <= p1.len(),
    ensures
        keep_parts(p1 + p2, rooted, i) == keep_parts(p1, rooted, i) + keep_parts(
            p1 + p2,
            rooted,
            p1.len() as int,
        ),
    decreases p1.len() - i,
{
    if i < p1.len() {
        lemma_keep_concat(p1, p2, rooted, i + 1);
        assert((p1 + p2)[i] == p1[i]);
    } else {
        assert(keep_parts(p1, rooted, i) =~= Seq::<Seq<char>>::empty());
    }
}

/// After the first piece, plain segments are all kept, in order.
proof fn lemma_keep_plain(ps: Seq<Seq<char>>, rooted: bool, j: int, k: int, windows: bool)
    requires
        1 <= k <= j <= ps.len(),
        forall|i: int| k <= i < ps.len() ==> plain_segment(#[trigger] ps[i], windows),
    ensures
        keep_parts(ps, rooted, j) == ps.skip(j),
    decreases ps.len() - j,
{
    reveal_strlit(".");
    if j < ps.len() {
        lemma_keep_plain(ps, rooted, j + 1, k, windows);
        assert(plain_segment(ps[j], windows));
        assert(ps.skip(j) =~= seq![ps[j]] + ps.skip(j + 1));
    } else {
        assert(ps.skip(j) =~= Seq::<Seq<char>>::empty());
    }
}

/// The separator `path_push` puts between `root` and a relative segment.
pub open spec fn glue_sep(root: Seq<char>) -> Seq<char> {
    if root.len() == 0 || root.last() == '/' {
        Seq::empty()
    } else {
        seq!['/']
    }
}

/// A path without "\" on Windows reads the same with "\" turned into "/".
proof fn lemma_no_backslash(rel: Seq<char>, windows: bool)
    requires
        forall|i: int|
            0 <= i < split_spec(rel, '/').len() ==> plain_segment(
                #[trigger] split_spec(rel, '/')[i],
                windows,
            ),
    ensures
        windows ==> replace_char_spec(rel, '\\', '/') == rel,
{
    if windows {
        let segs = split_spec(rel, '/');
        assert forall|k: int| 0 <= k < rel.len() implies rel[k] != '\\' by {
            lemma_char_in_piece(rel, k);
            if rel[k] == '\\' {
                let i = choose|i: int|
                    0 <= i < segs.len() && #[trigger] split_spec(rel, '/')[i].contains(rel[k]);
                assert(plain_segment(segs[i], windows));
            }
        }
        assert(replace_char_spec(rel, '\\', '/') =~= rel);
    }
}

/// The body of `root` glued to `rel`: the root's body, the separator, then `rel`; the
/// drive prefix is the root's.
proof fn lemma_joined_body(root: Seq<char>, rel: Seq<char>, windows: bool)
    requires
        path_body(root, windows).len() > 0,
        windows ==> replace_char_spec(rel, '\\', '/') == rel,
    ensures
        has_drive(root + glue_sep(root) + rel, windows) == has_drive(root, windows),
        has_drive(root, windows) ==> (root + glue_sep(root) + rel).take(2) == root.take(2),
        path_body(root + glue_sep(root) + rel, windows) == path_body(root, windows) + glue_sep(
            root,
        ) + rel,
{
    let g = glue_sep(root);
    let x = root + g + rel;
    let d = has_drive(root, windows);
    if root.len() >= 2 {
        assert(x[0] == root[0] && x[1] == root[1]);
    } else if !d {
        assert(root.len() == 1);
        if root.last() != '/' {
            assert(x[1] == '/');
        } else {
            assert(x[0] == '/');
        }
    }
    if d {
        assert(x.take(2) =~= root.take(2));
    }
    let rest_root = if d {
        root.skip(2)
    } else {
        root
    };
    assert(x.skip(if d {
        2int
    } else {
        0int
    }) =~= rest_root + g + rel);
    if windows {
        assert(replace_char_spec(rest_root + g + rel, '\\', '/') =~= replace_char_spec(
            rest_root,
            '\\',
            '/',
        ) + g + replace_char_spec(rel, '\\', '/'));
    }
}

/// The pieces of a body glued to `rel`: those of the body (less the empty piece a final
/// "/" leaves), then those of `rel`.
proof fn lemma_joined_pieces(a: Seq<char>, g: Seq<char>, rel: Seq<char>, rooted: bool)
    requires
        a.len() > 0,
        g == seq!['/'] || (g.len() == 0 && a.last() == '/'),
    ensures
        exists|pre: Seq<Seq<char>>|
            pre.len() >= 1 && split_spec(a + g + rel, '/') == pre + split_spec(rel, '/')
                && keep_parts(split_spec(a, '/'), rooted, 0) == keep_parts(pre, rooted, 0),
{
    if g.len() == 1 {
        lemma_split_join(a, rel);
        lemma_split_nonempty(a);
        assert(a + g + rel =~= a + seq!['/'] + rel);
        let pre = split_spec(a, '/');
        assert(split_spec(a + g + rel, '/') == pre + split_spec(rel, '/'));
    } else {
        let a1 = a.drop_last();
        assert(a =~= a1 + seq!['/'] + Seq::<char>::empty());
        assert(a + g + rel =~= a1 + seq!['/'] + rel);
        lemma_split_join(a1, rel);
        lemma_split_join(a1, Seq::<char>::empty());
        lemma_split_nonempty(a1);
        assert(split_spec(Seq::<char>::empty(), '/') =~= seq![Seq::<char>::empty()]);
        let pre = split_spec(a1, '/');
        let e = seq![Seq::<char>::empty()];
        assert(split_spec(a, '/') == pre + e);
        lemma_keep_concat(pre, e, rooted, 0);
        assert((pre + e)[pre.len() as int] == Seq::<char>::empty());
        assert(keep_parts(pre + e, rooted, pre.len() + 1int) =~= Seq::<Seq<char>>::empty());
        assert(keep_parts(pre + e, rooted, pre.len() as int) =~= Seq::<Seq<char>>::empty());
        assert(keep_parts(pre, rooted, 0) + Seq::<Seq<char>>::empty() =~= keep_parts(
            pre,
            rooted,
            0,
        ));
        assert(split_spec(a + g + rel, '/') == pre + split_spec(rel, '/'));
    }
}

/// The components of `root` glued to `rel`: the root's, then the segments of `rel`.
proof fn lemma_joined_components(root: Seq<char>, rel: Seq<char>, windows: bool)
    requires
        path_body(root, windows).len() > 0,
        forall|i: int|
            0 <= i < split_spec(rel, '/').len() ==> plain_segment(
                #[trigger] split_spec(rel, '/')[i],
                windows,
            ),
    ensures
        components_spec(root + glue_sep(root) + rel, windows) == components_spec(root, windows)
            + split_spec(rel, '/'),
{
    lemma_no_backslash(rel, windows);
    lemma_joined_body(root, rel, windows);
    let g = glue_sep(root);
    let a = path_body(root, windows);
    let x = root + g + rel;
    let bx = path_body(x, windows);
    let rooted = a[0] == '/';
    assert(bx[0] == a[0]);
    if g.len() == 0 {
        assert(root.last() == '/');
        let d = has_drive(root, windows);
        let rest_root = if d {
            root.skip(2)
        } else {
            root
        };
        assert(rest_root.len() > 0 && rest_root.last() == '/');
        if windows {
            assert(a[a.len() - 1] == rest_root[rest_root.len() - 1]);
        }
        assert(a.last() == '/');
    }
    lemma_joined_pieces(a, g, rel, rooted);
    let sr = split_spec(rel, '/');
    let pre = choose|pre: Seq<Seq<char>>|
        pre.len() >= 1 && split_spec(a + g + rel, '/') == pre + sr && keep_parts(
            split_spec(a, '/'),
            rooted,
            0,
        ) == keep_parts(pre, rooted, 0);
    lemma_keep_concat(pre, sr, rooted, 0);
    assert forall|i: int| pre.len() <= i < (pre + sr).len() implies plain_segment(
        #[trigger] (pre + sr)[i],
        windows,
    ) by {
        assert((pre + sr)[i] == sr[i - pre.len()]);
    }
    lemma_keep_plain(pre + sr, rooted, pre.len() as int, pre.len() as int, windows);
    assert((pre + sr).skip(pre.len() as int) =~= sr);
    assert(keep_parts(split_spec(bx, '/'), rooted, 0) == keep_parts(split_spec(a, '/'), rooted, 0)
        + sr);
    assert(components_spec(x, windows) =~= components_spec(root, windows) + sr);
}

/// What comes back of a relative path joined onto a root: the path itself, when the root
/// has something after its drive prefix and every "/"-segment of the path is a plain name
/// (not empty, not ".", and on Windows without "\"). `rel_posix` undoes `join_rel`.
pub proof fn lemma_rel_posix_join(root: Seq<char>, rel: Seq<char>, windows: bool)
    requires
        path_body(root, windows).len() > 0,
        forall|i: int|
            0 <= i < split_spec(rel, '/').len() ==> plain_segment(
                #[trigger] split_spec(rel, '/')[i],
                windows,
            ),
    ensures
        rel_posix_spec(root, join_rel_spec(root, rel), windows) == Some(rel),
{
    let segs = split_spec(rel, '/');
    lemma_split_nonempty(rel);
    lemma_split_no_sep(rel);
    assert forall|i: int| 0 <= i < segs.len() implies (#[trigger] segs[i]).len() > 0
        && !segs[i].contains('/') by {
        assert(plain_segment(segs[i], windows));
    }
    lemma_push_all(root, segs);
    lemma_join_split(rel);
    let x = root + glue_sep(root) + rel;
    assert(glued(root) + rel =~= x);
    assert(join_rel_spec(root, rel) == x);
    lemma_joined_components(root, rel, windows);
    let cb = components_spec(root, windows);
    let cx = components_spec(x, windows);
    assert forall|i: int| 0 <= i < cb.len() implies comp_same(
        #[trigger] cx[i],
        cb[i],
        windows && i == 0,
    ) by {
        assert(cx[i] == cb[i]);
    }
    assert(comps_prefix(cx, cb, windows));
    assert(cx.skip(cb.len() as int) =~= segs);
}

/// Each character of `s` is a "/" or lies in one of its "/"-pieces.
proof fn lemma_char_in_piece(s: Seq<char>, k: int)
    requires
        0 <= k < s.len(),
    ensures
        s[k] == '/' || exists|i: int|
            0 <= i < split_spec(s, '/').len() && #[trigger] split_spec(s, '/')[i].contains(s[k]),
    decreases s.len(),
{
    let p = s.drop_last();
    lemma_split_nonempty(p);
    let sp = split_spec(p, '/');
    if k < s.len() - 1 {
        lemma_char_in_piece(p, k);
        if p[k] != '/' {
            let i = choose|i: int| 0 <= i < sp.len() && #[trigger] sp[i].contains(p[k]);
            let j = choose|j: int| 0 <= j < sp[i].len() && sp[i][j] == p[k];
            if s.last() == '/' {
                assert(split_spec(s, '/')[i] == sp[i]);
            } else {
                let q = split_spec(s, '/')[i];
                if i == sp.len() - 1 {
                    assert(q == sp[i].push(s.last()));
                    assert(q[j] == p[k]);
                } else {
                    assert(q == sp[i]);
                }
                assert(q.contains(s[k]));
            }
        }
    } else if s.last() != '/' {
        let q = split_spec(s, '/')[sp.len() - 1];
        assert(q == sp.last().push(s.last()));
        assert(q[q.len() - 1] == s[k]);
        assert(q.contains(s[k]));
    }
}

} // verus!
