//! What the commands compute and print: differences between trees, the status and diff
//! reports, the version list and details, the save decision, garbage collection and the
//! cheat sheet's upkeep.
use vstd::prelude::*;
use crate::error::SnapError;
use crate::store::{strs, version_id, version_id_spec, Version};
use crate::text::{
    append_str, cat, chars_of, dec_spec, dec_u64, digits_spec, join, join_spec, matches_at, owned,
    starts_with_spec, string_of_range,
};
use crate::tree::{lemma_text_view, PathMap, Tree};

verus! {

// ------------------------------------------------------------------ differences of trees

/// The keys of `ps` that `m` lacks, in order.
pub open spec fn keys_absent(ps: Seq<(Seq<char>, Seq<char>)>, m: Map<Seq<char>, Seq<char>>) -> Seq<
    Seq<char>,
>
    decreases ps.len(),
{
    if ps.len() == 0 {
        Seq::empty()
    } else {
        let r = keys_absent(ps.drop_last(), m);
        if !m.contains_key(ps.last().0) {
            r.push(ps.last().0)
        } else {
            r
        }
    }
}

/// The keys of `ps` that `m` holds with another value, in order.
pub open spec fn keys_changed(ps: Seq<(Seq<char>, Seq<char>)>, m: Map<Seq<char>, Seq<char>>) -> Seq<
    Seq<char>,
>
    decreases ps.len(),
{
    if ps.len() == 0 {
        Seq::empty()
    } else {
        let r = keys_changed(ps.drop_last(), m);
        if m.contains_key(ps.last().0) && m[ps.last().0] != ps.last().1 {
            r.push(ps.last().0)
        } else {
            r
        }
    }
}

/// The modified paths are exactly the keys of `ps` that `m` holds with another value: each
/// such key is listed, and each listed path is such a key.
pub proof fn lemma_keys_changed_exact(ps: Seq<(Seq<char>, Seq<char>)>, m: Map<Seq<char>, Seq<char>>)
    ensures
        forall|k: int|
            0 <= k < ps.len() && m.contains_key(ps[k].0) && m[ps[k].0] != ps[k].1 ==> #[trigger] keys_changed(
                ps,
                m,
            ).contains(ps[k].0),
        forall|x: Seq<char>|
            #[trigger] keys_changed(ps, m).contains(x) ==> exists|k: int|
                0 <= k < ps.len() && ps[k].0 == x && m.contains_key(x) && m[x] != ps[k].1,
    decreases ps.len(),
{
    if ps.len() > 0 {
        let front = ps.drop_last();
        lemma_keys_changed_exact(front, m);
        let r = keys_changed(front, m);
        let last = ps.last();
        assert forall|k: int|
            0 <= k < ps.len() && m.contains_key(ps[k].0) && m[ps[k].0] != ps[k].1 implies #[trigger] keys_changed(
                ps,
                m,
            ).contains(ps[k].0) by {
            if k < front.len() {
                assert(front[k] == ps[k]);
                assert(r.contains(front[k].0));
                let j = choose|j: int| 0 <= j < r.len() && r[j] == front[k].0;
                assert(r.push(last.0)[j] == ps[k].0);
            } else {
                assert(ps[k] == last);
                assert(r.push(last.0)[r.len() as int] == last.0);
            }
        }
        assert forall|x: Seq<char>| #[trigger] keys_changed(ps, m).contains(x) implies exists|k: int|
            0 <= k < ps.len() && ps[k].0 == x && m.contains_key(x) && m[x] != ps[k].1 by {
            let res = keys_changed(ps, m);
            let j = choose|j: int| 0 <= j < res.len() && res[j] == x;
            if j < r.len() {
                assert(res[j] == r[j]);
                assert(r.contains(x));
                let k = choose|k: int|
                    0 <= k < front.len() && front[k].0 == x && m.contains_key(x) && m[x] != front[k].1;
                assert(ps[k] == front[k]);
            } else {
                assert(ps[ps.len() - 1] == last);
            }
        }
    }
}

/// The added (or removed) paths are exactly the keys of `ps` that `m` lacks.
pub proof fn lemma_keys_absent_exact(ps: Seq<(Seq<char>, Seq<char>)>, m: Map<Seq<char>, Seq<char>>)
    ensures
        forall|k: int|
            0 <= k < ps.len() && !m.contains_key(ps[k].0) ==> #[trigger] keys_absent(ps, m).contains(
                ps[k].0,
            ),
        forall|x: Seq<char>|
            #[trigger] keys_absent(ps, m).contains(x) ==> !m.contains_key(x) && exists|k: int|
                0 <= k < ps.len() && ps[k].0 == x,
    decreases ps.len(),
{
    if ps.len() > 0 {
        let front = ps.drop_last();
        lemma_keys_absent_exact(front, m);
        let r = keys_absent(front, m);
        let last = ps.last();
        assert forall|k: int| 0 <= k < ps.len() && !m.contains_key(ps[k].0) implies #[trigger] keys_absent(
            ps,
            m,
        ).contains(ps[k].0) by {
            if k < front.len() {
                assert(front[k] == ps[k]);
                assert(r.contains(front[k].0));
                let j = choose|j: int| 0 <= j < r.len() && r[j] == front[k].0;
                assert(r.push(last.0)[j] == ps[k].0);
            } else {
                assert(ps[k] == last);
                assert(r.push(last.0)[r.len() as int] == last.0);
            }
        }
        assert forall|x: Seq<char>| #[trigger] keys_absent(ps, m).contains(x) implies !m.contains_key(x)
            && exists|k: int| 0 <= k < ps.len() && ps[k].0 == x by {
            let res = keys_absent(ps, m);
            let j = choose|j: int| 0 <= j < res.len() && res[j] == x;
            if j < r.len() {
                assert(res[j] == r[j]);
                assert(r.contains(x));
                let k = choose|k: int| 0 <= k < front.len() && front[k].0 == x;
                assert(ps[k] == front[k]);
            } else {
                assert(ps[ps.len() - 1] == last);
            }
        }
    }
}

/// The paths of `a` that `b` lacks, in ascending order.
pub fn absent_keys(a: &Tree, b: &Tree) -> (r: Vec<String>)
    ensures
        strs(r@) == keys_absent(a.text_pairs(), b.text_view()),
{
    let mut r: Vec<String> = Vec::new();
    let mut i: usize = 0;
    while i < a.len()
        invariant
            0 <= i <= a.text_pairs().len(),
            strs(r@) == keys_absent(a.text_pairs().take(i as int), b.text_view()),
        decreases a.text_pairs().len() - i,
    {
        let (k, _v) = a.entry(i);
        assert(a.text_pairs()[i as int].0 == k@);
        assert(a.text_pairs().take(i + 1).drop_last() =~= a.text_pairs().take(i as int));
        if !b.contains_key(k.as_str()) {
            let ghost before = r@;
            r.push(k.clone());
            assert(strs(r@) =~= strs(before).push(k@));
        }
        i += 1;
    }
    assert(a.text_pairs().take(a.text_pairs().len() as int) =~= a.text_pairs());
    r
}

/// The paths of `a` that `b` holds with another hash, in ascending order.
pub fn changed_keys(a: &Tree, b: &Tree) -> (r: Vec<String>)
    ensures
        strs(r@) == keys_changed(a.text_pairs(), b.text_view()),
{
    let mut r: Vec<String> = Vec::new();
    let mut i: usize = 0;
    while i < a.len()
        invariant
            0 <= i <= a.text_pairs().len(),
            strs(r@) == keys_changed(a.text_pairs().take(i as int), b.text_view()),
        decreases a.text_pairs().len() - i,
    {
        let (k, v) = a.entry(i);
        assert(a.text_pairs()[i as int] == (k@, v@));
        assert(a.text_pairs().take(i + 1).drop_last() =~= a.text_pairs().take(i as int));
        match b.get(k.as_str()) {
            Some(h) => {
                if !equal_text(h.as_str(), v.as_str()) {
                    let ghost before = r@;
                    r.push(k.clone());
                    assert(strs(r@) =~= strs(before).push(k@));
                }
            },
            None => {},
        }
        i += 1;
    }
    assert(a.text_pairs().take(a.text_pairs().len() as int) =~= a.text_pairs());
    r
}

fn equal_text(a: &str, b: &str) -> (r: bool)
    ensures
        r == (a@ == b@),
{
    crate::text::str_eq(a, b)
}

/// `pre` before each of `ks`.
pub open spec fn prefixed(pre: Seq<char>, ks: Seq<Seq<char>>) -> Seq<Seq<char>> {
    ks.map_values(|k: Seq<char>| pre + k)
}

fn push_prefixed(out: &mut Vec<String>, pre: &str, ks: &Vec<String>)
    ensures
        strs(final(out)@) == strs(old(out)@) + prefixed(pre@, strs(ks@)),
{
    let ghost start = strs(out@);
    let mut i: usize = 0;
    while i < ks.len()
        invariant
            0 <= i <= ks.len(),
            strs(out@) == start + prefixed(pre@, strs(ks@).take(i as int)),
        decreases ks.len() - i,
    {
        let line = cat(pre, ks[i].as_str());
        let ghost before = out@;
        out.push(line);
        assert(strs(out@) =~= strs(before).push(pre@ + ks@[i as int]@));
        assert(prefixed(pre@, strs(ks@).take(i + 1)) =~= prefixed(pre@, strs(ks@).take(i as int)).push(
            pre@ + ks@[i as int]@,
        ));
        i += 1;
    }
    assert(strs(ks@).take(ks.len() as int) =~= strs(ks@));
}

/// Appends one line.
pub fn push_text_line(out: &mut Vec<String>, line: String)
    ensures
        strs(final(out)@) == strs(old(out)@).push(line@),
{
    let ghost before = out@;
    let ghost l = line@;
    out.push(line);
    assert(strs(out@) =~= strs(before).push(l));
}

// ------------------------------------------------------------------ status

/// The first line of the status: the current version, if any.
pub open spec fn status_head_spec(head: Option<(Seq<char>, Seq<char>)>) -> Seq<char> {
    match head {
        Some((id, msg)) => "当前版本: "@ + id + "  "@ + msg,
        None => "当前版本: (无)"@,
    }
}

/// The first line of the status, for the current version (if any).
pub fn status_head_line(head: Option<&Version>) -> (r: String)
    ensures
        r@ == status_head_spec(
            match head {
                Some(v) => Some((v.id@, v.message@)),
                None => None,
            },
        ),
{
    match head {
        Some(v) => {
            let mut s = cat("当前版本: ", v.id.as_str());
            append_str(&mut s, "  ");
            append_str(&mut s, v.message.as_str());
            s
        },
        None => owned("当前版本: (无)"),
    }
}

/// The status lines after the first, for the work tree `cur` against the current version's
/// tree `base`: "工作区干净" when nothing differs; else the added, modified and removed
/// paths, each group under its heading and only when it is not empty.
pub open spec fn status_spec(base: Tree, cur: Tree) -> Seq<Seq<char>> {
    let added = keys_absent(cur.text_pairs(), base.text_view());
    let removed = keys_absent(base.text_pairs(), cur.text_view());
    let modified = keys_changed(cur.text_pairs(), base.text_view());
    if added.len() == 0 && removed.len() == 0 && modified.len() == 0 {
        seq!["工作区干净"@]
    } else {
        (if added.len() > 0 {
            seq!["新增:"@] + prefixed("  + "@, added)
        } else {
            Seq::empty()
        }) + (if modified.len() > 0 {
            seq!["修改:"@] + prefixed("  M "@, modified)
        } else {
            Seq::empty()
        }) + (if removed.len() > 0 {
            seq!["删除:"@] + prefixed("  - "@, removed)
        } else {
            Seq::empty()
        })
    }
}

/// The status lines after the first (see `status_spec`).
pub fn status_report(base: &Tree, cur: &Tree) -> (r: Vec<String>)
    ensures
        strs(r@) == status_spec(*base, *cur),
{
    let added = absent_keys(cur, base);
    let removed = absent_keys(base, cur);
    let modified = changed_keys(cur, base);
    let mut out: Vec<String> = Vec::new();
    if added.len() == 0 && removed.len() == 0 && modified.len() == 0 {
        push_text_line(&mut out, owned("工作区干净"));
        assert(strs(out@) =~= seq!["工作区干净"@]);
        return out;
    }
    assert(strs(out@) =~= Seq::<Seq<char>>::empty());
    let ghost s0 = strs(out@);
    if added.len() > 0 {
        push_text_line(&mut out, owned("新增:"));
        push_prefixed(&mut out, "  + ", &added);
    }
    let ghost s1 = strs(out@);
    if modified.len() > 0 {
        push_text_line(&mut out, owned("修改:"));
        push_prefixed(&mut out, "  M ", &modified);
    }
    let ghost s2 = strs(out@);
    if removed.len() > 0 {
        push_text_line(&mut out, owned("删除:"));
        push_prefixed(&mut out, "  - ", &removed);
    }
    proof {
        let ga = if added@.len() > 0 {
            seq!["新增:"@] + prefixed("  + "@, strs(added@))
        } else {
            Seq::empty()
        };
        let gm = if modified@.len() > 0 {
            seq!["修改:"@] + prefixed("  M "@, strs(modified@))
        } else {
            Seq::empty()
        };
        let gr = if removed@.len() > 0 {
            seq!["删除:"@] + prefixed("  - "@, strs(removed@))
        } else {
            Seq::empty()
        };
        assert(s1 =~= ga);
        assert(s2 =~= ga + gm);
        assert(strs(out@) =~= ga + gm + gr);
    }
    out
}

/// No key of `ps` is missing from `m` exactly when the list of missing keys is empty.
proof fn lemma_keys_absent_empty(ps: Seq<(Seq<char>, Seq<char>)>, m: Map<Seq<char>, Seq<char>>)
    ensures
        keys_absent(ps, m).len() == 0 <==> forall|i: int|
            0 <= i < ps.len() ==> m.contains_key(#[trigger] ps[i].0),
    decreases ps.len(),
{
    if ps.len() > 0 {
        lemma_keys_absent_empty(ps.drop_last(), m);
        if keys_absent(ps, m).len() == 0 {
            assert forall|i: int| 0 <= i < ps.len() implies m.contains_key(#[trigger] ps[i].0) by {
                if i < ps.len() - 1 {
                    assert(ps.drop_last()[i] == ps[i]);
                }
            }
        }
        if forall|i: int| 0 <= i < ps.len() ==> m.contains_key(#[trigger] ps[i].0) {
            assert forall|i: int| 0 <= i < ps.drop_last().len() implies m.contains_key(
                #[trigger] ps.drop_last()[i].0,
            ) by {
                assert(ps.drop_last()[i] == ps[i]);
            }
            assert(m.contains_key(ps[ps.len() - 1].0));
        }
    }
}

/// No key of `ps` has another value in `m` exactly when the list of changed keys is empty.
proof fn lemma_keys_changed_empty(ps: Seq<(Seq<char>, Seq<char>)>, m: Map<Seq<char>, Seq<char>>)
    ensures
        keys_changed(ps, m).len() == 0 <==> forall|i: int|
            0 <= i < ps.len() && m.contains_key(#[trigger] ps[i].0) ==> m[ps[i].0] == ps[i].1,
    decreases ps.len(),
{
    if ps.len() > 0 {
        lemma_keys_changed_empty(ps.drop_last(), m);
        if keys_changed(ps, m).len() == 0 {
            assert forall|i: int| 0 <= i < ps.len() && m.contains_key(#[trigger] ps[i].0) implies m[ps[i].0]
                == ps[i].1 by {
                if i < ps.len() - 1 {
                    assert(ps.drop_last()[i] == ps[i]);
                }
            }
        }
        if forall|i: int| 0 <= i < ps.len() && m.contains_key(#[trigger] ps[i].0) ==> m[ps[i].0]
            == ps[i].1 {
            assert forall|i: int|
                0 <= i < ps.drop_last().len() && m.contains_key(
                    #[trigger] ps.drop_last()[i].0,
                ) implies m[ps.drop_last()[i].0] == ps.drop_last()[i].1 by {
                assert(ps.drop_last()[i] == ps[i]);
            }
            assert(m.contains_key(ps[ps.len() - 1].0) ==> m[ps[ps.len() - 1].0] == ps[ps.len()
                - 1].1);
        }
    }
}

/// Two trees have no added, removed or changed paths between them exactly when they are
/// the same map.
pub proof fn lemma_no_changes_iff_same(a: Tree, b: Tree)
    requires
        a.sorted(),
        b.sorted(),
    ensures
        (keys_absent(b.text_pairs(), a.text_view()).len() == 0 && keys_absent(
            a.text_pairs(),
            b.text_view(),
        ).len() == 0 && keys_changed(b.text_pairs(), a.text_view()).len() == 0) <==> a.text_view()
            == b.text_view(),
        (keys_absent(b.text_pairs(), a.text_view()).len() == 0 && keys_absent(
            a.text_pairs(),
            b.text_view(),
        ).len() == 0 && keys_changed(a.text_pairs(), b.text_view()).len() == 0) <==> a.text_view()
            == b.text_view(),
{
    lemma_text_view(a);
    lemma_text_view(b);
    lemma_keys_absent_empty(b.text_pairs(), a.text_view());
    lemma_keys_absent_empty(a.text_pairs(), b.text_view());
    lemma_keys_changed_empty(b.text_pairs(), a.text_view());
    lemma_keys_changed_empty(a.text_pairs(), b.text_view());
    let (ma, mb) = (a.text_view(), b.text_view());
    let (pa, pb) = (a.text_pairs(), b.text_pairs());
    if keys_absent(pb, ma).len() == 0 && keys_absent(pa, mb).len() == 0 {
        assert forall|k: Seq<char>| #[trigger] ma.contains_key(k) <==> mb.contains_key(k) by {
            if ma.contains_key(k) {
                let i = choose|i: int| 0 <= i < pa.len() && #[trigger] pa[i].0 == k;
                assert(mb.contains_key(pa[i].0));
            }
            if mb.contains_key(k) {
                let i = choose|i: int| 0 <= i < pb.len() && #[trigger] pb[i].0 == k;
                assert(ma.contains_key(pb[i].0));
            }
        }
        if keys_changed(pb, ma).len() == 0 {
            assert forall|k: Seq<char>| #[trigger] ma.contains_key(k) implies ma[k] == mb[k] by {
                let i = choose|i: int| 0 <= i < pb.len() && #[trigger] pb[i].0 == k;
                assert(ma.contains_key(pb[i].0));
            }
            assert(ma =~= mb);
        }
        if keys_changed(pa, mb).len() == 0 {
            assert forall|k: Seq<char>| #[trigger] ma.contains_key(k) implies ma[k] == mb[k] by {
                let i = choose|i: int| 0 <= i < pa.len() && #[trigger] pa[i].0 == k;
                assert(mb.contains_key(pa[i].0));
            }
            assert(ma =~= mb);
        }
    }
    if ma == mb {
        assert forall|i: int| 0 <= i < pb.len() implies ma.contains_key(#[trigger] pb[i].0) by {
            assert(mb.contains_key(pb[i].0));
        }
        assert forall|i: int| 0 <= i < pa.len() implies mb.contains_key(#[trigger] pa[i].0) by {
            assert(ma.contains_key(pa[i].0));
        }
    }
}

/// The work tree is reported clean exactly when it is the current version's tree: any
/// added, removed or changed file shows.
pub proof fn lemma_status_clean(base: Tree, cur: Tree)
    requires
        base.sorted(),
        cur.sorted(),
    ensures
        (status_spec(base, cur) == seq!["工作区干净"@]) <==> base.text_view() == cur.text_view(),
{
    lemma_no_changes_iff_same(base, cur);
    let added = keys_absent(cur.text_pairs(), base.text_view());
    let removed = keys_absent(base.text_pairs(), cur.text_view());
    let modified = keys_changed(cur.text_pairs(), base.text_view());
    if !(added.len() == 0 && removed.len() == 0 && modified.len() == 0) {
        let ga: Seq<Seq<char>> = if added.len() > 0 {
            seq!["新增:"@] + prefixed("  + "@, added)
        } else {
            Seq::empty()
        };
        let gm: Seq<Seq<char>> = if modified.len() > 0 {
            seq!["修改:"@] + prefixed("  M "@, modified)
        } else {
            Seq::empty()
        };
        let gr: Seq<Seq<char>> = if removed.len() > 0 {
            seq!["删除:"@] + prefixed("  - "@, removed)
        } else {
            Seq::empty()
        };
        assert(status_spec(base, cur) == ga + gm + gr);
        assert((ga + gm + gr).len() >= 2);
    }
}

/// A diff shows "(无差异)" exactly when both sides are the same tree.
pub proof fn lemma_diff_same(id1: Seq<char>, t1: Tree, label2: Seq<char>, t2: Tree)
    requires
        t1.sorted(),
        t2.sorted(),
    ensures
        diff_spec(id1, t1, label2, t2).last() == "  (无差异)"@ <==> t1.text_view() == t2.text_view(),
{
    lemma_no_changes_iff_same(t1, t2);
    let added = keys_absent(t2.text_pairs(), t1.text_view());
    let removed = keys_absent(t1.text_pairs(), t2.text_view());
    let modified = keys_changed(t1.text_pairs(), t2.text_view());
    let d = diff_spec(id1, t1, label2, t2);
    if !(added.len() == 0 && removed.len() == 0 && modified.len() == 0) {
        let body = seq!["--- "@ + id1, "+++ "@ + label2] + prefixed("  + "@, added) + prefixed(
            "  M "@,
            modified,
        ) + prefixed("  - "@, removed);
        assert(d =~= body);
        // the last line then names a path: it starts with two spaces and a sign
        reveal_strlit("  (无差异)");
        reveal_strlit("  + ");
        reveal_strlit("  M ");
        reveal_strlit("  - ");
        if removed.len() > 0 {
            assert(d.last() == "  - "@ + removed.last());
            assert(d.last()[2] == '-');
        } else if modified.len() > 0 {
            assert(d.last() == "  M "@ + modified.last());
            assert(d.last()[2] == 'M');
        } else {
            assert(d.last() == "  + "@ + added.last());
            assert(d.last()[2] == '+');
        }
        assert("  (无差异)"@[2] == '(');
    }
}

// ------------------------------------------------------------------ diff

/// The diff report of `t1` (version `id1`) against `t2` (labelled `label2`): both names,
/// then added, modified and removed paths, or "(无差异)" when nothing differs.
pub open spec fn diff_spec(id1: Seq<char>, t1: Tree, label2: Seq<char>, t2: Tree) -> Seq<Seq<char>> {
    let added = keys_absent(t2.text_pairs(), t1.text_view());
    let removed = keys_absent(t1.text_pairs(), t2.text_view());
    let modified = keys_changed(t1.text_pairs(), t2.text_view());
    seq!["--- "@ + id1, "+++ "@ + label2] + prefixed("  + "@, added) + prefixed("  M "@, modified)
        + prefixed("  - "@, removed) + (if added.len() == 0 && removed.len() == 0 && modified.len()
        == 0 {
        seq!["  (无差异)"@]
    } else {
        Seq::empty()
    })
}

/// The diff report (see `diff_spec`).
pub fn diff_report(id1: &str, t1: &Tree, label2: &str, t2: &Tree) -> (r: Vec<String>)
    ensures
        strs(r@) == diff_spec(id1@, *t1, label2@, *t2),
{
    let added = absent_keys(t2, t1);
    let removed = absent_keys(t1, t2);
    let modified = changed_keys(t1, t2);
    let mut out: Vec<String> = Vec::new();
    push_text_line(&mut out, cat("--- ", id1));
    push_text_line(&mut out, cat("+++ ", label2));
    push_prefixed(&mut out, "  + ", &added);
    push_prefixed(&mut out, "  M ", &modified);
    push_prefixed(&mut out, "  - ", &removed);
    let ghost s = strs(out@);
    if added.len() == 0 && removed.len() == 0 && modified.len() == 0 {
        push_text_line(&mut out, owned("  (无差异)"));
    }
    assert(strs(out@) =~= diff_spec(id1@, *t1, label2@, *t2));
    out
}

// ------------------------------------------------------------------ list and show

/// The first six characters of an id (all of it when shorter).
pub open spec fn short_id(p: Seq<char>) -> Seq<char> {
    if p.len() <= 6 {
        p
    } else {
        p.take(6)
    }
}

/// The parents column of the list: "-" for none, else the short ids joined with ",".
pub open spec fn parents_column(ps: Seq<Seq<char>>) -> Seq<char> {
    if ps.len() == 0 {
        "-"@
    } else {
        join_spec(ps.map_values(|p: Seq<char>| short_id(p)), ","@)
    }
}

/// One line of the version list: a "*" marks the current version.
pub open spec fn list_line(v: Version, current: bool, time: Seq<char>) -> Seq<char> {
    (if current {
        "*"@
    } else {
        " "@
    }) + " "@ + v.id@ + "  "@ + time + "  <-"@ + parents_column(strs(v.parents@)) + "  "@
        + v.message@
}

/// The version list, newest first (`versions` in ascending order, `times[i]` the time text
/// of `versions[i]`), or "(还没有任何版本)".
pub open spec fn list_spec(versions: Seq<Version>, head: Option<Seq<char>>, times: Seq<Seq<char>>) -> Seq<
    Seq<char>,
> {
    if versions.len() == 0 {
        seq!["(还没有任何版本)"@]
    } else {
        Seq::new(
            versions.len(),
            |k: int|
                {
                    let i = versions.len() - 1 - k;
                    list_line(versions[i], head == Some(versions[i].id@), times[i])
                },
        )
    }
}

fn parents_text(ps: &Vec<String>) -> (r: String)
    ensures
        r@ == parents_column(strs(ps@)),
{
    if ps.len() == 0 {
        return owned("-");
    }
    let mut shorts: Vec<String> = Vec::new();
    let mut i: usize = 0;
    while i < ps.len()
        invariant
            0 <= i <= ps.len(),
            strs(shorts@) == strs(ps@).take(i as int).map_values(|p: Seq<char>| short_id(p)),
        decreases ps.len() - i,
    {
        let v = chars_of(ps[i].as_str());
        let n = if v.len() <= 6 {
            v.len()
        } else {
            6
        };
        let s = string_of_range(&v, 0, n);
        assert(s@ =~= short_id(ps@[i as int]@));
        let ghost before = shorts@;
        shorts.push(s);
        assert(strs(shorts@) =~= strs(before).push(short_id(ps@[i as int]@)));
        assert(strs(ps@).take(i + 1).map_values(|p: Seq<char>| short_id(p)) =~= strs(ps@).take(
            i as int,
        ).map_values(|p: Seq<char>| short_id(p)).push(short_id(ps@[i as int]@)));
        i += 1;
    }
    assert(strs(ps@).take(ps.len() as int) =~= strs(ps@));
    join(&shorts, ",")
}

/// The version list (see `list_spec`).
pub fn list_report(versions: &[Version], head: Option<&str>, times: &Vec<String>) -> (r: Vec<
    String,
>)
    requires
        times@.len() == versions@.len(),
    ensures
        strs(r@) == list_spec(
            versions@,
            match head {
                Some(h) => Some(h@),
                None => None,
            },
            strs(times@),
        ),
{
    let ghost hv: Option<Seq<char>> = match head {
        Some(h) => Some(h@),
        None => None,
    };
    let mut out: Vec<String> = Vec::new();
    if versions.len() == 0 {
        push_text_line(&mut out, owned("(还没有任何版本)"));
        assert(strs(out@) =~= seq!["(还没有任何版本)"@]);
        return out;
    }
    let n = versions.len();
    let mut k: usize = 0;
    while k < n
        invariant
            0 <= k <= n,
            n == versions@.len(),
            times@.len() == n,
            strs(out@) == list_spec(versions@, hv, strs(times@)).take(k as int),
            hv == (match head {
                Some(h) => Some(h@),
                None => None::<Seq<char>>,
            }),
        decreases n - k,
    {
        let i = n - 1 - k;
        let v = &versions[i];
        let current = match head {
            Some(h) => equal_text(h, v.id.as_str()),
            None => false,
        };
        assert(current == (hv == Some(versions@[i as int].id@)));
        let mut line = owned(if current {
            "*"
        } else {
            " "
        });
        append_str(&mut line, " ");
        append_str(&mut line, v.id.as_str());
        append_str(&mut line, "  ");
        append_str(&mut line, times[i].as_str());
        append_str(&mut line, "  <-");
        let pt = parents_text(&v.parents);
        append_str(&mut line, pt.as_str());
        append_str(&mut line, "  ");
        append_str(&mut line, v.message.as_str());
        assert(line@ == list_line(versions@[i as int], current, strs(times@)[i as int]));
        push_text_line(&mut out, line);
        assert(list_spec(versions@, hv, strs(times@)).take(k + 1) =~= list_spec(
            versions@,
            hv,
            strs(times@),
        ).take(k as int).push(list_line(versions@[i as int], current, strs(times@)[i as int])));
        k += 1;
    }
    assert(list_spec(versions@, hv, strs(times@)).take(n as int) =~= list_spec(
        versions@,
        hv,
        strs(times@),
    ));
    out
}

/// The details of a version (`time` its time text): id, time, parents, message, and the
/// file list.
pub open spec fn show_spec(v: Version, time: Seq<char>) -> Seq<Seq<char>> {
    seq![
        "版本:   "@ + v.id@,
        "时间:   "@ + time,
        "父版本: "@ + (if v.parents@.len() == 0 {
            "-"@
        } else {
            join_spec(strs(v.parents@), ", "@)
        }),
        "说明:   "@ + v.message@,
        "文件 ("@ + digits_spec(v.tree.text_pairs().len()) + "):"@,
    ] + prefixed("  "@, v.tree.text_pairs().map_values(|e: (Seq<char>, Seq<char>)| e.0))
}

/// The details of a version (see `show_spec`).
pub fn show_report(v: &Version, time: &str) -> (r: Vec<String>)
    ensures
        strs(r@) == show_spec(*v, time@),
{
    let mut out: Vec<String> = Vec::new();
    push_text_line(&mut out, cat("版本:   ", v.id.as_str()));
    push_text_line(&mut out, cat("时间:   ", time));
    let parents = if v.parents.len() == 0 {
        owned("-")
    } else {
        join(&v.parents, ", ")
    };
    push_text_line(&mut out, cat("父版本: ", parents.as_str()));
    push_text_line(&mut out, cat("说明:   ", v.message.as_str()));
    let n = dec_u64(v.tree.len() as u64);
    let mut head = cat("文件 (", n.as_str());
    append_str(&mut head, "):");
    push_text_line(&mut out, head);
    let ghost start = strs(out@);
    let ghost keys = v.tree.text_pairs().map_values(|e: (Seq<char>, Seq<char>)| e.0);
    let mut i: usize = 0;
    while i < v.tree.len()
        invariant
            0 <= i <= v.tree.text_pairs().len(),
            keys == v.tree.text_pairs().map_values(|e: (Seq<char>, Seq<char>)| e.0),
            strs(out@) == start + prefixed("  "@, keys.take(i as int)),
        decreases v.tree.text_pairs().len() - i,
    {
        let (k, _h) = v.tree.entry(i);
        assert(keys[i as int] == k@);
        push_text_line(&mut out, cat("  ", k.as_str()));
        assert(prefixed("  "@, keys.take(i + 1)) =~= prefixed("  "@, keys.take(i as int)).push(
            "  "@ + k@,
        ));
        i += 1;
    }
    assert(keys.take(keys.len() as int) =~= keys);
    assert(strs(out@) =~= show_spec(*v, time@));
    out
}

// ------------------------------------------------------------------ save

/// Whether two trees hold the same entries.
pub fn same_tree(a: &Tree, b: &Tree) -> (r: bool)
    ensures
        r == (a.text_pairs() == b.text_pairs()),
{
    if a.len() != b.len() {
        return false;
    }
    let mut i: usize = 0;
    while i < a.len()
        invariant
            0 <= i <= a.text_pairs().len(),
            a.text_pairs().len() == b.text_pairs().len(),
            forall|k: int| 0 <= k < i ==> a.text_pairs()[k] == b.text_pairs()[k],
        decreases a.text_pairs().len() - i,
    {
        let (ka, va) = a.entry(i);
        let (kb, vb) = b.entry(i);
        assert(a.text_pairs()[i as int] == (ka@, va@));
        assert(b.text_pairs()[i as int] == (kb@, vb@));
        if !equal_text(ka.as_str(), kb.as_str()) || !equal_text(va.as_str(), vb.as_str()) {
            return false;
        }
        i += 1;
    }
    assert(a.text_pairs() =~= b.text_pairs());
    true
}

/// What save does with the scanned tree: nothing when the current version (if any) has
/// the same tree; else the version to record, with the current version as its one parent
/// (none without one) and the id those give.
pub open spec fn save_spec(head: Option<Version>, tree: Tree, message: Seq<char>) -> Option<
    (Seq<char>, Seq<Seq<char>>),
> {
    match head {
        Some(h) => if h.tree.text_pairs() == tree.text_pairs() {
            None
        } else {
            Some((version_id_spec(seq![h.id@], tree.text_pairs(), message), seq![h.id@]))
        },
        None => Some((version_id_spec(Seq::empty(), tree.text_pairs(), message), Seq::empty())),
    }
}

/// The version save would record (see `save_spec`).
pub fn save_step(head: Option<&Version>, tree: &Tree, message: &str) -> (r: Option<
    (String, Vec<String>),
>)
    ensures
        match save_spec(
            match head {
                Some(h) => Some(*h),
                None => None,
            },
            *tree,
            message@,
        ) {
            Some((id, parents)) => r matches Some((rid, rp)) && rid@ == id && strs(rp@) == parents,
            None => r is None,
        },
{
    let parents: Vec<String> = match head {
        Some(h) => {
            if same_tree(&h.tree, tree) {
                return None;
            }
            let mut p = Vec::new();
            p.push(h.id.clone());
            p
        },
        None => Vec::new(),
    };
    assert(strs(parents@) =~= (match head {
        Some(h) => seq![h.id@],
        None => Seq::<Seq<char>>::empty(),
    }));
    let id = version_id(parents.as_slice(), tree, message);
    Some((id, parents))
}

/// Saving an unchanged work tree records nothing: when the scanned tree equals the current
/// version's, save does nothing, whatever the message.
pub proof fn lemma_save_unchanged(head: Version, tree: Tree, message: Seq<char>)
    requires
        head.tree.text_pairs() == tree.text_pairs(),
    ensures
        save_spec(Some(head), tree, message) is None,
{
}

/// What save reports when the tree did not change.
pub fn unchanged_message() -> (r: String)
    ensures
        r@ == "工作区与当前版本一致，无需保存"@,
{
    owned("工作区与当前版本一致，无需保存")
}

/// What save reports when the state was saved before (HEAD moves to it).
pub fn moved_message(id: &str, message: &str) -> (r: String)
    ensures
        r@ == "该状态此前已保存过 "@ + id@ + "，已把 HEAD 移过去  "@ + message@,
{
    let mut s = cat("该状态此前已保存过 ", id);
    append_str(&mut s, "，已把 HEAD 移过去  ");
    append_str(&mut s, message);
    s
}

/// What save reports for a new version of `files` files.
pub fn saved_message(id: &str, files: usize, message: &str) -> (r: String)
    ensures
        r@ == "已保存 "@ + id@ + "  ("@ + digits_spec(files as nat) + " 个文件)  "@ + message@,
{
    let n = dec_u64(files as u64);
    let mut s = cat("已保存 ", id);
    append_str(&mut s, "  (");
    append_str(&mut s, n.as_str());
    append_str(&mut s, " 个文件)  ");
    append_str(&mut s, message);
    s
}

// ------------------------------------------------------------------ garbage collection

/// Some version's tree refers to the object `h`.
pub open spec fn referenced_by(vs: Seq<Version>, h: Seq<char>) -> bool {
    exists|i: int, j: int|
        0 <= i < vs.len() && 0 <= j < vs[i].tree.text_pairs().len() && #[trigger] vs[i].tree.text_pairs()[j].1
            == h
}

/// The objects the versions refer to.
pub fn referenced(versions: &[Version]) -> (r: PathMap<bool>)
    ensures
        forall|h: Seq<char>| #[trigger] r@.contains_key(h) <==> referenced_by(versions@, h),
{
    let mut r: PathMap<bool> = PathMap::new();
    let mut i: usize = 0;
    while i < versions.len()
        invariant
            0 <= i <= versions.len(),
            forall|h: Seq<char>| #[trigger] r@.contains_key(h) <==> referenced_by(
                versions@.take(i as int),
                h,
            ),
        decreases versions.len() - i,
    {
        let t = &versions[i].tree;
        let ghost before_i = versions@.take(i as int);
        let mut j: usize = 0;
        while j < t.len()
            invariant
                0 <= j <= t.text_pairs().len(),
                *t == versions@[i as int].tree,
                i < versions.len(),
                forall|h: Seq<char>| #[trigger] r@.contains_key(h) <==> (referenced_by(
                    versions@.take(i as int),
                    h,
                ) || exists|k: int| 0 <= k < j && #[trigger] t.text_pairs()[k].1 == h),
            decreases t.text_pairs().len() - j,
        {
            let (_k, hv) = t.entry(j);
            assert(t.text_pairs()[j as int].1 == hv@);
            r.insert(hv.clone(), true);
            j += 1;
        }
        assert forall|h: Seq<char>| #[trigger] r@.contains_key(h) <==> referenced_by(
            versions@.take(i + 1),
            h,
        ) by {
            let vs1 = versions@.take(i + 1);
            if referenced_by(versions@.take(i as int), h) {
                let (a, b) = choose|a: int, b: int|
                    0 <= a < versions@.take(i as int).len() && 0 <= b < versions@.take(
                        i as int,
                    )[a].tree.text_pairs().len() && #[trigger] versions@.take(
                        i as int,
                    )[a].tree.text_pairs()[b].1 == h;
                assert(vs1[a].tree.text_pairs()[b].1 == h);
            }
            if exists|k: int| 0 <= k < t.text_pairs().len() && #[trigger] t.text_pairs()[k].1 == h {
                let k = choose|k: int|
                    0 <= k < t.text_pairs().len() && #[trigger] t.text_pairs()[k].1 == h;
                assert(vs1[i as int].tree.text_pairs()[k].1 == h);
            }
            if referenced_by(vs1, h) {
                let (a, b) = choose|a: int, b: int|
                    0 <= a < vs1.len() && 0 <= b < vs1[a].tree.text_pairs().len()
                        && #[trigger] vs1[a].tree.text_pairs()[b].1 == h;
                if a < i {
                    assert(versions@.take(i as int)[a].tree.text_pairs()[b].1 == h);
                } else {
                    assert(t.text_pairs()[b].1 == h);
                }
            }
        }
        i += 1;
    }
    assert(versions@.take(versions.len() as int) =~= versions@);
    r
}

/// Whether the object file `name` in directory `prefix` is still referred to.
pub fn is_referenced(refs: &PathMap<bool>, prefix: &str, name: &str) -> (b: bool)
    ensures
        b == refs@.contains_key(prefix@ + name@),
{
    let full = cat(prefix, name);
    refs.contains_key(full.as_str())
}

/// Whether a file in the object directory is a temporary object left by an interrupted save.
pub fn is_temp_object(name: &str) -> (b: bool)
    ensures
        b == starts_with_spec(name@, ".tmp-"@),
{
    let v = chars_of(name);
    let p = chars_of(".tmp-");
    crate::text::starts_with(&v, &p)
}

/// What gc reports.
pub fn gc_summary(removed: u64, freed: u64) -> (r: String)
    ensures
        r@ == "清理了 "@ + digits_spec(removed as nat) + " 个对象，释放 "@ + digits_spec(
            freed as nat,
        ) + " 字节"@,
{
    let a = dec_u64(removed);
    let b = dec_u64(freed);
    let mut s = cat("清理了 ", a.as_str());
    append_str(&mut s, " 个对象，释放 ");
    append_str(&mut s, b.as_str());
    append_str(&mut s, " 字节");
    s
}

// ------------------------------------------------------------------ the cheat sheet

/// What happens to the cheat sheet in the data directory.
#[derive(Clone, Copy, Debug, PartialEq, Eq, Structural)]
pub enum DocAction {
    /// Left as it is.
    Kept,
    /// Written, there was none.
    Created,
    /// Rewritten, it was made by an older version (it still names "vsnap").
    Refreshed,
}

/// `needle` occurs in `hay`.
pub open spec fn contains_text(hay: Seq<char>, needle: Seq<char>) -> bool {
    exists|i: int| 0 <= i <= hay.len() && #[trigger] starts_with_spec(hay.skip(i), needle)
}

/// Whether `needle` occurs in `hay`.
pub fn has_text(hay: &str, needle: &str) -> (b: bool)
    ensures
        b == contains_text(hay@, needle@),
{
    let h = chars_of(hay);
    let n = chars_of(needle);
    let mut i: usize = 0;
    while i < h.len()
        invariant
            0 <= i <= h.len(),
            h@ == hay@,
            n@ == needle@,
            forall|k: int| 0 <= k < i ==> !#[trigger] starts_with_spec(hay@.skip(k), needle@),
        decreases h.len() - i,
    {
        if matches_at(&h, i, &n) {
            return true;
        }
        i += 1;
    }
    if matches_at(&h, i, &n) {
        return true;
    }
    proof {
        assert forall|k: int| 0 <= k <= hay@.len() implies !#[trigger] starts_with_spec(
            hay@.skip(k),
            needle@,
        ) by {
            if k < i {
            }
        }
    }
    false
}

/// What to do with the cheat sheet: write it when there is none; when there is one, rewrite
/// it only when asked to refresh stale sheets and its text (`old`) names "vsnap".
pub open spec fn doc_action_spec(exists: bool, refresh_stale: bool, old: Seq<char>) -> DocAction {
    if !exists {
        DocAction::Created
    } else if refresh_stale && contains_text(old, "vsnap"@) {
        DocAction::Refreshed
    } else {
        DocAction::Kept
    }
}

/// What to do with the cheat sheet (see `doc_action_spec`).
pub fn help_doc_action(exists: bool, refresh_stale: bool, old: &str) -> (a: DocAction)
    ensures
        a == doc_action_spec(exists, refresh_stale, old@),
{
    if !exists {
        DocAction::Created
    } else if refresh_stale && has_text(old, "vsnap") {
        DocAction::Refreshed
    } else {
        DocAction::Kept
    }
}

} // verus!
