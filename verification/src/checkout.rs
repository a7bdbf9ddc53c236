//! Checkout: what to delete, what to write, what would be lost, what stands in the way, and
//! when the switch counts as done. Looking at the disk and changing it is the caller's part,
//! done in this order: plan, check, confirm, apply, and move HEAD only when all went well.
use vstd::prelude::*;
use crate::error::SnapError;
use crate::report::{keys_absent, push_text_line};
use crate::store::strs;
use crate::text::{append_str, cat, chars_of, dec_u64, digits_spec, lowercase_spec, owned, str_eq,
    string_of_range, to_lowercase, trim, trim_spec};
use crate::tree::{lemma_pairs_map, Tree};

verus! {

/// The plan of a checkout: files to delete, files to write, and files whose content on disk
/// is in no version and would be lost.
pub struct Plan {
    pub to_delete: Vec<String>,
    pub to_write: Vec<String>,
    pub lost: Vec<String>,
}

/// The paths of the target to write: those that are not a file now (`None`) or whose
/// content hash differs from the target's.
pub open spec fn writes_spec(ps: Seq<(Seq<char>, Seq<char>)>, now: Seq<Option<Seq<char>>>) -> Seq<
    Seq<char>,
>
    decreases ps.len(),
{
    if ps.len() == 0 || now.len() != ps.len() {
        Seq::empty()
    } else {
        let r = writes_spec(ps.drop_last(), now.drop_last());
        if now.last() == Some(ps.last().1) {
            r
        } else {
            r.push(ps.last().0)
        }
    }
}

/// The content hash `cur` of a file on disk is what the old version holds for `k`.
pub open spec fn saved_in(old: Map<Seq<char>, Seq<char>>, k: Seq<char>, cur: Seq<char>) -> bool {
    old.contains_key(k) && old[k] == cur
}

/// Target paths whose file would be overwritten while its content is not the old version's.
pub open spec fn lost_writes(
    ps: Seq<(Seq<char>, Seq<char>)>,
    now: Seq<Option<Seq<char>>>,
    old: Map<Seq<char>, Seq<char>>,
) -> Seq<Seq<char>>
    decreases ps.len(),
{
    if ps.len() == 0 || now.len() != ps.len() {
        Seq::empty()
    } else {
        let r = lost_writes(ps.drop_last(), now.drop_last(), old);
        match now.last() {
            Some(cur) => if cur != ps.last().1 && !saved_in(old, ps.last().0, cur) {
                r.push(ps.last().0)
            } else {
                r
            },
            None => r,
        }
    }
}

/// Paths to delete whose file's content is not the old version's.
pub open spec fn lost_deletes(
    ds: Seq<Seq<char>>,
    now: Seq<Option<Seq<char>>>,
    old: Map<Seq<char>, Seq<char>>,
) -> Seq<Seq<char>>
    decreases ds.len(),
{
    if ds.len() == 0 || now.len() != ds.len() {
        Seq::empty()
    } else {
        let r = lost_deletes(ds.drop_last(), now.drop_last(), old);
        match now.last() {
            Some(cur) => if !saved_in(old, ds.last(), cur) {
                r.push(ds.last())
            } else {
                r
            },
            None => r,
        }
    }
}

/// A target path is written exactly when no file there holds the target content: each such
/// path is listed, and each listed path is such a path.
pub proof fn lemma_writes_exact(ps: Seq<(Seq<char>, Seq<char>)>, now: Seq<Option<Seq<char>>>)
    requires
        now.len() == ps.len(),
    ensures
        forall|k: int|
            0 <= k < ps.len() && now[k] != Some(ps[k].1) ==> #[trigger] writes_spec(ps, now).contains(
                ps[k].0,
            ),
        forall|x: Seq<char>|
            #[trigger] writes_spec(ps, now).contains(x) ==> exists|k: int|
                0 <= k < ps.len() && ps[k].0 == x && now[k] != Some(ps[k].1),
    decreases ps.len(),
{
    if ps.len() > 0 {
        let (f, g) = (ps.drop_last(), now.drop_last());
        lemma_writes_exact(f, g);
        let r = writes_spec(f, g);
        let last = ps.last();
        assert forall|k: int| 0 <= k < ps.len() && now[k] != Some(ps[k].1) implies #[trigger] writes_spec(
            ps,
            now,
        ).contains(ps[k].0) by {
            if k < f.len() {
                assert(f[k] == ps[k] && g[k] == now[k]);
                assert(r.contains(f[k].0));
                let j = choose|j: int| 0 <= j < r.len() && r[j] == f[k].0;
                assert(r.push(last.0)[j] == ps[k].0);
            } else {
                assert(r.push(last.0)[r.len() as int] == last.0);
            }
        }
        assert forall|x: Seq<char>| #[trigger] writes_spec(ps, now).contains(x) implies exists|k: int|
            0 <= k < ps.len() && ps[k].0 == x && now[k] != Some(ps[k].1) by {
            let res = writes_spec(ps, now);
            let j = choose|j: int| 0 <= j < res.len() && res[j] == x;
            if j < r.len() {
                assert(res[j] == r[j]);
                assert(r.contains(x));
                let k = choose|k: int| 0 <= k < f.len() && f[k].0 == x && g[k] != Some(f[k].1);
                assert(ps[k] == f[k] && now[k] == g[k]);
            } else {
                assert(ps[ps.len() - 1] == last && now[now.len() - 1] == now.last());
            }
        }
    }
}

/// A target path is reported lost exactly when a file there holds content that is neither
/// the target's nor what the current version records for that path (a path the current
/// version lacks included): each such path is listed, and each listed path is such a path.
pub proof fn lemma_lost_writes_exact(
    ps: Seq<(Seq<char>, Seq<char>)>,
    now: Seq<Option<Seq<char>>>,
    old: Map<Seq<char>, Seq<char>>,
)
    requires
        now.len() == ps.len(),
    ensures
        forall|k: int|
            0 <= k < ps.len() && now[k] is Some && now[k]->0 != ps[k].1 && !(old.contains_key(ps[k].0)
                && old[ps[k].0] == now[k]->0) ==> #[trigger] lost_writes(ps, now, old).contains(
                ps[k].0,
            ),
        forall|x: Seq<char>|
            #[trigger] lost_writes(ps, now, old).contains(x) ==> exists|k: int|
                0 <= k < ps.len() && ps[k].0 == x && now[k] is Some && now[k]->0 != ps[k].1 && !(
                old.contains_key(x) && old[x] == now[k]->0),
    decreases ps.len(),
{
    if ps.len() > 0 {
        let (f, g) = (ps.drop_last(), now.drop_last());
        lemma_lost_writes_exact(f, g, old);
        let r = lost_writes(f, g, old);
        let last = ps.last();
        assert forall|k: int|
            0 <= k < ps.len() && now[k] is Some && now[k]->0 != ps[k].1 && !(old.contains_key(ps[k].0)
                && old[ps[k].0] == now[k]->0) implies #[trigger] lost_writes(ps, now, old).contains(
            ps[k].0,
        ) by {
            if k < f.len() {
                assert(f[k] == ps[k] && g[k] == now[k]);
                assert(r.contains(f[k].0));
                let j = choose|j: int| 0 <= j < r.len() && r[j] == f[k].0;
                assert(r.push(last.0)[j] == ps[k].0);
            } else {
                assert(r.push(last.0)[r.len() as int] == last.0);
            }
        }
        assert forall|x: Seq<char>| #[trigger] lost_writes(ps, now, old).contains(x) implies exists|
            k: int,
        |
            0 <= k < ps.len() && ps[k].0 == x && now[k] is Some && now[k]->0 != ps[k].1 && !(
            old.contains_key(x) && old[x] == now[k]->0) by {
            let res = lost_writes(ps, now, old);
            let j = choose|j: int| 0 <= j < res.len() && res[j] == x;
            if j < r.len() {
                assert(res[j] == r[j]);
                assert(r.contains(x));
                let k = choose|k: int|
                    0 <= k < f.len() && f[k].0 == x && g[k] is Some && g[k]->0 != f[k].1 && !(
                    old.contains_key(x) && old[x] == g[k]->0);
                assert(ps[k] == f[k] && now[k] == g[k]);
            } else {
                assert(ps[ps.len() - 1] == last && now[now.len() - 1] == now.last());
            }
        }
    }
}

/// A path to delete is reported lost exactly when a file there holds content other than
/// what the current version records for it.
pub proof fn lemma_lost_deletes_exact(
    ds: Seq<Seq<char>>,
    now: Seq<Option<Seq<char>>>,
    old: Map<Seq<char>, Seq<char>>,
)
    requires
        now.len() == ds.len(),
    ensures
        forall|k: int|
            0 <= k < ds.len() && now[k] is Some && !(old.contains_key(ds[k]) && old[ds[k]]
                == now[k]->0) ==> #[trigger] lost_deletes(ds, now, old).contains(ds[k]),
        forall|x: Seq<char>|
            #[trigger] lost_deletes(ds, now, old).contains(x) ==> exists|k: int|
                0 <= k < ds.len() && ds[k] == x && now[k] is Some && !(old.contains_key(x) && old[x]
                    == now[k]->0),
    decreases ds.len(),
{
    if ds.len() > 0 {
        let (f, g) = (ds.drop_last(), now.drop_last());
        lemma_lost_deletes_exact(f, g, old);
        let r = lost_deletes(f, g, old);
        let last = ds.last();
        assert forall|k: int|
            0 <= k < ds.len() && now[k] is Some && !(old.contains_key(ds[k]) && old[ds[k]]
                == now[k]->0) implies #[trigger] lost_deletes(ds, now, old).contains(ds[k]) by {
            if k < f.len() {
                assert(f[k] == ds[k] && g[k] == now[k]);
                assert(r.contains(f[k]));
                let j = choose|j: int| 0 <= j < r.len() && r[j] == f[k];
                assert(r.push(last)[j] == ds[k]);
            } else {
                assert(r.push(last)[r.len() as int] == last);
            }
        }
        assert forall|x: Seq<char>| #[trigger] lost_deletes(ds, now, old).contains(x) implies exists|
            k: int,
        | 0 <= k < ds.len() && ds[k] == x && now[k] is Some && !(old.contains_key(x) && old[x]
            == now[k]->0) by {
            let res = lost_deletes(ds, now, old);
            let j = choose|j: int| 0 <= j < res.len() && res[j] == x;
            if j < r.len() {
                assert(res[j] == r[j]);
                assert(r.contains(x));
                let k = choose|k: int|
                    0 <= k < f.len() && f[k] == x && g[k] is Some && !(old.contains_key(x) && old[x]
                        == g[k]->0);
                assert(ds[k] == f[k] && now[k] == g[k]);
            } else {
                assert(ds[ds.len() - 1] == last && now[now.len() - 1] == now.last());
            }
        }
    }
}

/// The hashes as the specifications see them.
pub open spec fn opt_strs(v: Seq<Option<String>>) -> Seq<Option<Seq<char>>> {
    v.map_values(
        |o: Option<String>|
            match o {
                Some(s) => Some(s@),
                None => None,
            },
    )
}

/// The paths a checkout from `old` to `target` deletes: those of the old version that the
/// target lacks, in ascending order.
pub open spec fn deletes_spec(target: Tree, old: Tree) -> Seq<Seq<char>> {
    keys_absent(old.text_pairs(), target.text_view())
}

/// Plans a checkout from the tree `old` (the current version's; empty without one) to
/// `target`. `target_now[i]` is the content hash of the file now at the `i`-th target path
/// (`None` when there is no file there), `delete_now[j]` that at the `j`-th path to delete.
pub fn checkout_plan(
    target: &Tree,
    old: &Tree,
    to_delete: Vec<String>,
    target_now: &Vec<Option<String>>,
    delete_now: &Vec<Option<String>>,
) -> (p: Plan)
    requires
        strs(to_delete@) == deletes_spec(*target, *old),
        target_now@.len() == target.text_pairs().len(),
        delete_now@.len() == to_delete@.len(),
    ensures
        strs(p.to_delete@) == deletes_spec(*target, *old),
        strs(p.to_write@) == writes_spec(target.text_pairs(), opt_strs(target_now@)),
        strs(p.lost@) == lost_writes(target.text_pairs(), opt_strs(target_now@), old.text_view())
            + lost_deletes(deletes_spec(*target, *old), opt_strs(delete_now@), old.text_view()),
{
    let ghost ps = target.text_pairs();
    let ghost tn = opt_strs(target_now@);
    let ghost om = old.text_view();
    let mut to_write: Vec<String> = Vec::new();
    let mut lost: Vec<String> = Vec::new();
    let n = target.len();
    let mut i: usize = 0;
    assert(ps.take(0) =~= Seq::<(Seq<char>, Seq<char>)>::empty());
    while i < n
        invariant
            0 <= i <= n,
            n == ps.len(),
            ps == target.text_pairs(),
            tn == opt_strs(target_now@),
            om == old.text_view(),
            target_now@.len() == n,
            strs(to_write@) == writes_spec(ps.take(i as int), tn.take(i as int)),
            strs(lost@) == lost_writes(ps.take(i as int), tn.take(i as int), om),
        decreases n - i,
    {
        let (rel, h) = target.entry(i);
        assert(ps[i as int] == (rel@, h@));
        assert(ps.take(i + 1).drop_last() =~= ps.take(i as int));
        assert(tn.take(i + 1).drop_last() =~= tn.take(i as int));
        assert(tn.take(i + 1).last() == tn[i as int]);
        match &target_now[i] {
            Some(cur) => {
                if !str_eq(cur.as_str(), h.as_str()) {
                    push_text_line(&mut to_write, rel.clone());
                    let saved = match old.get(rel.as_str()) {
                        Some(o) => str_eq(o.as_str(), cur.as_str()),
                        None => false,
                    };
                    if !saved {
                        push_text_line(&mut lost, rel.clone());
                    }
                }
            },
            None => {
                push_text_line(&mut to_write, rel.clone());
            },
        }
        i += 1;
    }
    assert(ps.take(n as int) =~= ps);
    assert(tn.take(n as int) =~= tn);
    let ghost lw = strs(lost@);
    let ghost ds = strs(to_delete@);
    let ghost dn = opt_strs(delete_now@);
    let mut j: usize = 0;
    assert(ds.take(0) =~= Seq::<Seq<char>>::empty());
    assert(lw + lost_deletes(ds.take(0), dn.take(0), om) =~= lw);
    while j < to_delete.len()
        invariant
            0 <= j <= to_delete.len(),
            ds == strs(to_delete@),
            dn == opt_strs(delete_now@),
            om == old.text_view(),
            delete_now@.len() == to_delete@.len(),
            strs(lost@) == lw + lost_deletes(ds.take(j as int), dn.take(j as int), om),
        decreases to_delete.len() - j,
    {
        let rel = &to_delete[j];
        assert(ds[j as int] == rel@);
        assert(ds.take(j + 1).drop_last() =~= ds.take(j as int));
        assert(dn.take(j + 1).drop_last() =~= dn.take(j as int));
        assert(dn.take(j + 1).last() == dn[j as int]);
        match &delete_now[j] {
            Some(cur) => {
                let saved = match old.get(rel.as_str()) {
                    Some(o) => str_eq(o.as_str(), cur.as_str()),
                    None => false,
                };
                if !saved {
                    push_text_line(&mut lost, rel.clone());
                }
            },
            None => {},
        }
        j += 1;
    }
    assert(ds.take(to_delete.len() as int) =~= ds);
    assert(dn.take(to_delete.len() as int) =~= dn);
    Plan { to_delete, to_write, lost }
}

// ------------------------------------------------------------------ what stands in the way

/// What the disk shows about a path to write: its object is missing from the store; a
/// directory of that name holds files that are not being deleted; an ancestor (given
/// relative to the root) is a file that stays; the directory it goes into (or, where that
/// does not exist yet, its nearest existing ancestor) has no write permission; the file
/// there is read-only.
#[derive(Debug)]
pub struct WriteCheck {
    pub object_missing: bool,
    pub dir_in_way: bool,
    pub blocked_by: Option<String>,
    pub dir_unwritable: bool,
    pub readonly: bool,
}

/// UTF-8 length of a character.
pub open spec fn utf8_width(c: char) -> int {
    if (c as int) < 0x80 {
        1
    } else if (c as int) < 0x800 {
        2
    } else if (c as int) < 0x10000 {
        3
    } else {
        4
    }
}

/// The characters of `s` that make up exactly its first `n` UTF-8 bytes (`None` when `s`
/// is shorter or byte `n` falls inside a character; slicing `&s[..n]` panics then).
pub open spec fn byte_prefix(s: Seq<char>, n: int) -> Option<Seq<char>>
    decreases s.len(),
{
    if n == 0 {
        Some(Seq::empty())
    } else if n < 0 || s.len() == 0 || utf8_width(s[0]) > n {
        None
    } else {
        match byte_prefix(s.drop_first(), n - utf8_width(s[0])) {
            Some(p) => Some(seq![s[0]] + p),
            None => None,
        }
    }
}

pub(crate) fn width(c: char) -> (w: usize)
    ensures
        w == utf8_width(c),
{
    let u = c as u32;
    if u < 0x80 {
        1
    } else if u < 0x800 {
        2
    } else if u < 0x10000 {
        3
    } else {
        4
    }
}

/// The first `n` bytes of `s` (requires them to end on a character boundary).
pub fn bytes_prefix(s: &str, n: usize) -> (r: String)
    requires
        byte_prefix(s@, n as int) is Some,
    ensures
        byte_prefix(s@, n as int) == Some(r@),
{
    let v = chars_of(s);
    let mut i: usize = 0;
    let mut left: usize = n;
    assert(v@.skip(0) =~= v@);
    while left > 0
        invariant
            0 <= i <= v.len(),
            v@ == s@,
            byte_prefix(v@.skip(i as int), left as int) is Some,
            byte_prefix(s@, n as int) == match byte_prefix(v@.skip(i as int), left as int) {
                Some(p) => Some(v@.take(i as int) + p),
                None => None,
            },
        decreases left,
    {
        let c = v[i];
        let w = width(c);
        assert(v@.skip(i as int)[0] == c);
        assert(v@.skip(i as int).drop_first() =~= v@.skip(i + 1));
        assert(v@.take(i + 1) =~= v@.take(i as int) + seq![c]);
        i += 1;
        left -= w;
    }
    string_of_range(&v, 0, i)
}

/// The problem with writing a path whose target hash is `h`, if any; only the first that
/// applies is reported.
pub open spec fn write_problem(h: Seq<char>, c: WriteCheck) -> Option<Seq<char>> {
    if c.object_missing {
        Some(
            "对象库缺少对象 "@ + match byte_prefix(h, 8) {
                Some(p) => p,
                None => h,
            } + "…"@,
        )
    } else if c.dir_in_way {
        Some("同名目录里有未保存的内容，需要先把它移走"@)
    } else {
        match c.blocked_by {
            Some(b) => Some("上层路径 "@ + b@ + " 是个文件，需要先把它移走"@),
            None => if c.dir_unwritable {
                Some("所在目录没有写权限"@)
            } else if c.readonly {
                Some("文件只读，没有写权限"@)
            } else {
                None
            },
        }
    }
}

/// The problems of the paths to write, in order.
pub open spec fn write_problems(
    keys: Seq<Seq<char>>,
    checks: Seq<WriteCheck>,
    target: Map<Seq<char>, Seq<char>>,
) -> Seq<(Seq<char>, Seq<char>)>
    decreases keys.len(),
{
    if keys.len() == 0 || checks.len() != keys.len() {
        Seq::empty()
    } else {
        let r = write_problems(keys.drop_last(), checks.drop_last(), target);
        match write_problem(target[keys.last()], checks.last()) {
            Some(m) => r.push((keys.last(), m)),
            None => r,
        }
    }
}

/// The problems of the paths to delete: a directory of that name that holds other files.
pub open spec fn delete_problems(keys: Seq<Seq<char>>, in_way: Seq<bool>) -> Seq<
    (Seq<char>, Seq<char>),
>
    decreases keys.len(),
{
    if keys.len() == 0 || in_way.len() != keys.len() {
        Seq::empty()
    } else {
        let r = delete_problems(keys.drop_last(), in_way.drop_last());
        if in_way.last() {
            r.push((keys.last(), "同名目录里有未保存的内容，需要先把它移走"@))
        } else {
            r
        }
    }
}

/// Pairs of strings as the specifications see them.
pub open spec fn text_pairs_of(v: Seq<(String, String)>) -> Seq<(Seq<char>, Seq<char>)> {
    v.map_values(|p: (String, String)| (p.0@, p.1@))
}

fn push_pair(out: &mut Vec<(String, String)>, a: String, b: String)
    ensures
        text_pairs_of(final(out)@) == text_pairs_of(old(out)@).push((a@, b@)),
{
    let ghost before = out@;
    let ghost p = (a@, b@);
    out.push((a, b));
    assert(text_pairs_of(out@) =~= text_pairs_of(before).push(p));
}

/// Everything that would make the checkout fail, found before any file is touched: for
/// each path to write (`writes[i]` what the disk shows for `to_write[i]`), then for each
/// path to delete (`deletes_in_way[j]`: a directory of that name holds other files).
pub fn preflight(
    plan: &Plan,
    target: &Tree,
    writes: &Vec<WriteCheck>,
    deletes_in_way: &Vec<bool>,
) -> (r: Vec<(String, String)>)
    requires
        writes@.len() == plan.to_write@.len(),
        deletes_in_way@.len() == plan.to_delete@.len(),
        forall|i: int|
            0 <= i < plan.to_write@.len() ==> target.text_view().contains_key(
                #[trigger] plan.to_write@[i]@,
            ),
        forall|i: int|
            0 <= i < plan.to_write@.len() && (#[trigger] writes@[i]).object_missing ==> byte_prefix(
                target.text_view()[plan.to_write@[i]@],
                8,
            ) is Some,
    ensures
        text_pairs_of(r@) == write_problems(strs(plan.to_write@), writes@, target.text_view())
            + delete_problems(strs(plan.to_delete@), deletes_in_way@),
{
    let ghost ks = strs(plan.to_write@);
    let ghost tm = target.text_view();
    let mut out: Vec<(String, String)> = Vec::new();
    let mut i: usize = 0;
    assert(ks.take(0) =~= Seq::<Seq<char>>::empty());
    while i < plan.to_write.len()
        invariant
            0 <= i <= plan.to_write.len(),
            ks == strs(plan.to_write@),
            tm == target.text_view(),
            writes@.len() == plan.to_write@.len(),
            forall|k: int|
                0 <= k < plan.to_write@.len() ==> tm.contains_key(#[trigger] plan.to_write@[k]@),
            forall|k: int|
                0 <= k < plan.to_write@.len() && (#[trigger] writes@[k]).object_missing
                    ==> byte_prefix(tm[plan.to_write@[k]@], 8) is Some,
            text_pairs_of(out@) == write_problems(ks.take(i as int), writes@.take(i as int), tm),
        decreases plan.to_write.len() - i,
    {
        let rel = &plan.to_write[i];
        let c = &writes[i];
        assert(ks[i as int] == rel@);
        assert(ks.take(i + 1).drop_last() =~= ks.take(i as int));
        assert(writes@.take(i + 1).drop_last() =~= writes@.take(i as int));
        assert(writes@.take(i + 1).last() == *c);
        assert(tm.contains_key(rel@));
        if c.object_missing {
            let h = match target.get(rel.as_str()) {
                Some(h) => h,
                None => {
                    assert(false);
                    return out;
                },
            };
            let short = bytes_prefix(h.as_str(), 8);
            let mut m = cat("对象库缺少对象 ", short.as_str());
            append_str(&mut m, "…");
            push_pair(&mut out, rel.clone(), m);
        } else if c.dir_in_way {
            push_pair(&mut out, rel.clone(), owned("同名目录里有未保存的内容，需要先把它移走"));
        } else {
            match &c.blocked_by {
                Some(b) => {
                    let mut m = cat("上层路径 ", b.as_str());
                    append_str(&mut m, " 是个文件，需要先把它移走");
                    push_pair(&mut out, rel.clone(), m);
                },
                None => {
                    if c.dir_unwritable {
                        push_pair(&mut out, rel.clone(), owned("所在目录没有写权限"));
                    } else if c.readonly {
                        push_pair(&mut out, rel.clone(), owned("文件只读，没有写权限"));
                    }
                },
            }
        }
        i += 1;
    }
    assert(ks.take(plan.to_write.len() as int) =~= ks);
    assert(writes@.take(plan.to_write.len() as int) =~= writes@);
    let ghost wp = text_pairs_of(out@);
    let ghost ds = strs(plan.to_delete@);
    let mut j: usize = 0;
    assert(ds.take(0) =~= Seq::<Seq<char>>::empty());
    assert(wp + delete_problems(ds.take(0), deletes_in_way@.take(0)) =~= wp);
    while j < plan.to_delete.len()
        invariant
            0 <= j <= plan.to_delete.len(),
            ds == strs(plan.to_delete@),
            deletes_in_way@.len() == plan.to_delete@.len(),
            text_pairs_of(out@) == wp + delete_problems(ds.take(j as int), deletes_in_way@.take(
                j as int,
            )),
        decreases plan.to_delete.len() - j,
    {
        let rel = &plan.to_delete[j];
        assert(ds[j as int] == rel@);
        assert(ds.take(j + 1).drop_last() =~= ds.take(j as int));
        assert(deletes_in_way@.take(j + 1).drop_last() =~= deletes_in_way@.take(j as int));
        assert(deletes_in_way@.take(j + 1).last() == deletes_in_way@[j as int]);
        if deletes_in_way[j] {
            push_pair(&mut out, rel.clone(), owned("同名目录里有未保存的内容，需要先把它移走"));
        }
        j += 1;
    }
    assert(ds.take(plan.to_delete.len() as int) =~= ds);
    assert(deletes_in_way@.take(plan.to_delete.len() as int) =~= deletes_in_way@);
    out
}

// ------------------------------------------------------------------ reports and gates

/// `"  ! rel: why"` for each problem.
pub open spec fn problem_lines_spec(ps: Seq<(Seq<char>, Seq<char>)>) -> Seq<Seq<char>> {
    ps.map_values(|p: (Seq<char>, Seq<char>)| "  ! "@ + p.0 + ": "@ + p.1)
}

fn problem_lines(ps: &Vec<(String, String)>, out: &mut Vec<String>)
    ensures
        strs(final(out)@) == strs(old(out)@) + problem_lines_spec(text_pairs_of(ps@)),
{
    let ghost start = strs(out@);
    let ghost pv = text_pairs_of(ps@);
    let mut i: usize = 0;
    while i < ps.len()
        invariant
            0 <= i <= ps.len(),
            pv == text_pairs_of(ps@),
            strs(out@) == start + problem_lines_spec(pv.take(i as int)),
        decreases ps.len() - i,
    {
        let (a, b) = (&ps[i].0, &ps[i].1);
        assert(pv[i as int] == (a@, b@));
        let mut l = cat("  ! ", a.as_str());
        append_str(&mut l, ": ");
        append_str(&mut l, b.as_str());
        push_text_line(out, l);
        assert(problem_lines_spec(pv.take(i + 1)) =~= problem_lines_spec(pv.take(i as int)).push(
            "  ! "@ + a@ + ": "@ + b@,
        ));
        i += 1;
    }
    assert(pv.take(ps.len() as int) =~= pv);
}

/// The report of a checkout stopped by problems: a heading naming the version, then one
/// line per problem.
pub fn blocked_report(vid: &str, problems: &Vec<(String, String)>) -> (r: Vec<String>)
    ensures
        strs(r@) == seq!["无法切换到 "@ + vid@ + "，以下问题需要先处理:"@] + problem_lines_spec(
            text_pairs_of(problems@),
        ),
{
    let mut out: Vec<String> = Vec::new();
    let mut h = cat("无法切换到 ", vid);
    append_str(&mut h, "，以下问题需要先处理:");
    push_text_line(&mut out, h);
    problem_lines(problems, &mut out);
    out
}

/// The error of a checkout stopped before touching anything.
pub fn aborted() -> (e: SnapError)
    ensures
        e@ == "checkout 已中止，工作区未做任何改动"@,
{
    SnapError::new("checkout 已中止，工作区未做任何改动")
}

/// The warning about content that would be lost: the count, then at most 20 paths, then
/// how many more there are.
pub open spec fn lost_warning_spec(lost: Seq<Seq<char>>) -> Seq<Seq<char>> {
    seq![
        "警告: 以下 "@ + digits_spec(lost.len()) + " 个文件在磁盘上的内容未保存到任何版本，"@,
        "checkout 会覆盖或删除它们，之后无法找回:"@,
    ] + lost.take(if lost.len() < 20 {
        lost.len() as int
    } else {
        20
    }).map_values(|p: Seq<char>| "    "@ + p) + if lost.len() > 20 {
        seq!["    ... 另外 "@ + digits_spec((lost.len() - 20) as nat) + " 个"@]
    } else {
        Seq::empty()
    }
}

/// The warning about content that would be lost (see `lost_warning_spec`).
pub fn lost_warning(lost: &Vec<String>) -> (r: Vec<String>)
    ensures
        strs(r@) == lost_warning_spec(strs(lost@)),
{
    let ghost lv = strs(lost@);
    let mut out: Vec<String> = Vec::new();
    let n = dec_u64(lost.len() as u64);
    let mut h = cat("警告: 以下 ", n.as_str());
    append_str(&mut h, " 个文件在磁盘上的内容未保存到任何版本，");
    push_text_line(&mut out, h);
    push_text_line(&mut out, owned("checkout 会覆盖或删除它们，之后无法找回:"));
    let ghost start = strs(out@);
    let shown: usize = if lost.len() < 20 {
        lost.len()
    } else {
        20
    };
    let mut i: usize = 0;
    while i < shown
        invariant
            0 <= i <= shown,
            shown <= lost.len(),
            lv == strs(lost@),
            strs(out@) == start + lv.take(i as int).map_values(|p: Seq<char>| "    "@ + p),
        decreases shown - i,
    {
        push_text_line(&mut out, cat("    ", lost[i].as_str()));
        assert(lv.take(i + 1).map_values(|p: Seq<char>| "    "@ + p) =~= lv.take(
            i as int,
        ).map_values(|p: Seq<char>| "    "@ + p).push("    "@ + lost@[i as int]@));
        i += 1;
    }
    if lost.len() > 20 {
        let more = dec_u64((lost.len() - 20) as u64);
        let mut l = cat("    ... 另外 ", more.as_str());
        append_str(&mut l, " 个");
        push_text_line(&mut out, l);
    }
    assert(strs(out@) =~= lost_warning_spec(lv));
    out
}

/// Why an answer to "continue? [y/N]" cancels, or `None` when it is yes: `None` for the
/// answer means none could be read (the input is closed or failed), which cancels; an
/// answer is yes when, trimmed and lower-cased, it is "y" or "yes"; anything else cancels.
pub open spec fn refusal(answer: Option<Seq<char>>) -> Option<Seq<char>> {
    match answer {
        None => Some("无法读取确认输入（stdin 不可用），已取消，工作区未做任何改动"@),
        Some(l) => {
            let a = lowercase_spec(trim_spec(l));
            if a == "y"@ || a == "yes"@ {
                None
            } else {
                Some("已取消，工作区未做任何改动"@)
            }
        },
    }
}

/// The answer to "continue? [y/N]" (see `refusal`).
pub fn confirm_answer(line: Option<&str>) -> (r: Result<(), SnapError>)
    ensures
        match refusal(opt_str(line)) {
            None => r is Ok,
            Some(m) => r matches Err(e) && e@ == m,
        },
{
    match line {
        None => Err(SnapError::new("无法读取确认输入（stdin 不可用），已取消，工作区未做任何改动")),
        Some(l) => {
            let t = trim(l);
            let a = to_lowercase(t.as_str());
            if str_eq(a.as_str(), "y") || str_eq(a.as_str(), "yes") {
                Ok(())
            } else {
                Err(SnapError::new("已取消，工作区未做任何改动"))
            }
        },
    }
}

/// `Some(s@)` for `Some(s)`.
pub open spec fn opt_str(o: Option<&str>) -> Option<Seq<char>> {
    match o {
        Some(s) => Some(s@),
        None => None,
    }
}

/// What a checkout does next.
pub enum CheckoutStep {
    /// Print these lines, then fail with this error; no file has been touched.
    Stop(Vec<String>, SnapError),
    /// Print these lines and this prompt, then come back with the answer read.
    Ask(Vec<String>, String),
    /// Delete and write the planned paths.
    Apply,
}

/// The gates of a checkout to `vid`, before any file is touched: with problems found by
/// `preflight` it stops, reporting them; with nothing that would be lost it goes ahead;
/// otherwise it warns and asks (`answer` is `None` until asked; then the answer read, `None`
/// inside when none could be read), and goes ahead only on a yes.
pub fn checkout_gate(
    vid: &str,
    problems: &Vec<(String, String)>,
    lost: &Vec<String>,
    answer: Option<Option<&str>>,
) -> (s: CheckoutStep)
    ensures
        problems@.len() > 0 ==> (s matches CheckoutStep::Stop(lines, e) && strs(lines@) == seq![
            "无法切换到 "@ + vid@ + "，以下问题需要先处理:"@,
        ] + problem_lines_spec(text_pairs_of(problems@)) && e@
            == "checkout 已中止，工作区未做任何改动"@),
        problems@.len() == 0 && lost@.len() == 0 ==> s is Apply,
        problems@.len() == 0 && lost@.len() > 0 && answer is None ==> (s matches CheckoutStep::Ask(
            lines,
            prompt,
        ) && strs(lines@) == lost_warning_spec(strs(lost@)) && prompt@ == "继续? [y/N] "@),
        problems@.len() == 0 && lost@.len() > 0 && answer is Some ==> match refusal(
            opt_str(answer->0),
        ) {
            None => s is Apply,
            Some(m) => s matches CheckoutStep::Stop(lines, e) && lines@.len() == 0 && e@ == m,
        },
{
    if problems.len() > 0 {
        return CheckoutStep::Stop(blocked_report(vid, problems), aborted());
    }
    if lost.len() == 0 {
        return CheckoutStep::Apply;
    }
    match answer {
        None => CheckoutStep::Ask(lost_warning(lost), owned("继续? [y/N] ")),
        Some(a) => match confirm_answer(a) {
            Ok(()) => CheckoutStep::Apply,
            Err(e) => CheckoutStep::Stop(Vec::new(), e),
        },
    }
}

/// The report of the files that could not be deleted or written.
pub fn failure_report(fails: &Vec<(String, String)>) -> (r: Vec<String>)
    ensures
        strs(r@) == seq!["以下文件处理失败:"@] + problem_lines_spec(text_pairs_of(fails@)),
{
    let mut out: Vec<String> = Vec::new();
    push_text_line(&mut out, owned("以下文件处理失败:"));
    problem_lines(fails, &mut out);
    out
}

/// Whether the switch to `vid` is complete: only when no file failed; otherwise the work
/// tree is partly switched, HEAD stays, and the error says so.
pub fn checkout_outcome(vid: &str, fails: &Vec<(String, String)>) -> (r: Result<(), SnapError>)
    ensures
        r is Ok <==> fails@.len() == 0,
        r matches Err(e) ==> e@ == "切换到 "@ + vid@
            + " 未完成，工作区处于部分完成状态，请处理上述问题后重新运行"@,
{
    if fails.len() == 0 {
        Ok(())
    } else {
        let mut m = cat("切换到 ", vid);
        append_str(&mut m, " 未完成，工作区处于部分完成状态，请处理上述问题后重新运行");
        Err(SnapError::from_string(m))
    }
}


/// After the writes, every target path holds its target content: a path is written exactly
/// when no file there holds the target content already.
pub proof fn lemma_plan_covers_target(
    ps: Seq<(Seq<char>, Seq<char>)>,
    now: Seq<Option<Seq<char>>>,
    k: int,
)
    requires
        now.len() == ps.len(),
        0 <= k < ps.len(),
        forall|a: int, b: int| 0 <= a < b < ps.len() ==> (#[trigger] ps[a]).0 != (#[trigger] ps[b]).0,
    ensures
        writes_spec(ps, now).contains(ps[k].0) <==> now[k] != Some(ps[k].1),
    decreases ps.len(),
{
    let n = ps.len() - 1;
    let (p1, n1) = (ps.drop_last(), now.drop_last());
    if k < n {
        lemma_plan_covers_target(p1, n1, k);
        if now[n] != Some(ps[n].1) {
            assert(ps[n].0 != ps[k].0);
            assert(writes_spec(ps, now) == writes_spec(p1, n1).push(ps[n].0));
            if writes_spec(ps, now).contains(ps[k].0) {
                let x = choose|x: int| 0 <= x < writes_spec(ps, now).len() && writes_spec(ps, now)[x]
                    == ps[k].0;
                if x < writes_spec(p1, n1).len() {
                    assert(writes_spec(p1, n1)[x] == ps[k].0);
                }
            }
            if writes_spec(p1, n1).contains(ps[k].0) {
                let x = choose|x: int| 0 <= x < writes_spec(p1, n1).len() && writes_spec(p1, n1)[x]
                    == ps[k].0;
                assert(writes_spec(ps, now)[x] == ps[k].0);
            }
        }
    } else {
        if now[n] != Some(ps[n].1) {
            assert(writes_spec(ps, now)[writes_spec(p1, n1).len() as int] == ps[n].0);
        } else {
            lemma_writes_keys(p1, n1);
            if writes_spec(p1, n1).contains(ps[n].0) {
                let x = choose|x: int| 0 <= x < writes_spec(p1, n1).len() && writes_spec(p1, n1)[x]
                    == ps[n].0;
                let j = choose|j: int| 0 <= j < p1.len() && p1[j].0 == writes_spec(p1, n1)[x];
                assert(ps[j].0 == ps[n].0);
            }
        }
    }
}

/// Every path written is a path of the target.
pub proof fn lemma_writes_keys(ps: Seq<(Seq<char>, Seq<char>)>, now: Seq<Option<Seq<char>>>)
    ensures
        forall|x: int| 0 <= x < writes_spec(ps, now).len() ==> exists|j: int|
            0 <= j < ps.len() && (#[trigger] ps[j]).0 == #[trigger] writes_spec(ps, now)[x],
    decreases ps.len(),
{
    if ps.len() > 0 && now.len() == ps.len() {
        let (p1, n1) = (ps.drop_last(), now.drop_last());
        lemma_writes_keys(p1, n1);
        assert forall|x: int| 0 <= x < writes_spec(ps, now).len() implies exists|j: int|
            0 <= j < ps.len() && (#[trigger] ps[j]).0 == #[trigger] writes_spec(ps, now)[x] by {
            if x < writes_spec(p1, n1).len() {
                let j = choose|j: int| 0 <= j < p1.len() && (#[trigger] p1[j]).0 == writes_spec(
                    p1,
                    n1,
                )[x];
                assert(ps[j] == p1[j]);
            } else {
                assert(ps[ps.len() - 1].0 == writes_spec(ps, now)[x]);
            }
        }
    }
}

/// Content is only reported lost for files that get overwritten: every lost target path is
/// also a path to write.
pub proof fn lemma_lost_are_written(
    ps: Seq<(Seq<char>, Seq<char>)>,
    now: Seq<Option<Seq<char>>>,
    old: Map<Seq<char>, Seq<char>>,
)
    ensures
        forall|x: int| 0 <= x < lost_writes(ps, now, old).len() ==> writes_spec(ps, now).contains(
            #[trigger] lost_writes(ps, now, old)[x],
        ),
    decreases ps.len(),
{
    if ps.len() > 0 && now.len() == ps.len() {
        let (p1, n1) = (ps.drop_last(), now.drop_last());
        lemma_lost_are_written(p1, n1, old);
        let w = writes_spec(ps, now);
        let w1 = writes_spec(p1, n1);
        assert forall|x: int| 0 <= x < lost_writes(ps, now, old).len() implies w.contains(
            #[trigger] lost_writes(ps, now, old)[x],
        ) by {
            let l1 = lost_writes(p1, n1, old);
            if x < l1.len() {
                assert(lost_writes(ps, now, old)[x] == l1[x]);
                assert(w1.contains(l1[x]));
                let y = choose|y: int| 0 <= y < w1.len() && w1[y] == l1[x];
                assert(w[y] == w1[y]);
            } else {
                assert(w[w1.len() as int] == ps.last().0);
            }
        }
    }
}

} // verus!
