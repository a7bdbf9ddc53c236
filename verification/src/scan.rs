//! Walking the work tree: which directory entries are descended into and which files are
//! kept. Listing directories is the caller's part; every decision is made here.
use vstd::prelude::*;
use crate::ignore::{ignored_spec, is_ignored, Pattern};
use crate::paths::{is_self_path, is_self_path_spec};
use crate::store::{opt_view, Repo};
use crate::text::{append_str, chars_of, owned, sort_strings, strings_sorted};

verus! {

/// One entry of a directory listing: its name, whether it is a symbolic link, and whether
/// it is (or, for a link, points at) a directory.
#[derive(Debug)]
pub struct DirEntry {
    pub name: String,
    pub is_link: bool,
    pub is_dir: bool,
}

/// The relative path of entry `name` inside the directory `rel_dir` ("" for the root).
pub open spec fn child_rel_spec(rel_dir: Seq<char>, name: Seq<char>) -> Seq<char> {
    if rel_dir.len() == 0 {
        name
    } else {
        rel_dir + "/"@ + name
    }
}

/// The relative path of entry `name` inside `rel_dir`.
pub fn child_rel(rel_dir: &str, name: &str) -> (r: String)
    ensures
        r@ == child_rel_spec(rel_dir@, name@),
{
    let dv = chars_of(rel_dir);
    if dv.len() == 0 {
        return owned(name);
    }
    let mut r = owned(rel_dir);
    append_str(&mut r, "/");
    append_str(&mut r, name);
    r
}

/// The rules as the specifications see them.
pub open spec fn rules(pats: Seq<Pattern>) -> Seq<(Seq<char>, bool)> {
    pats.map_values(|p: Pattern| p@)
}

/// Whether the walk goes into the entry: a real directory (not a link to one) that no rule
/// ignores.
pub open spec fn descends(rel: Seq<char>, e: DirEntry, pats: Seq<Pattern>) -> bool {
    e.is_dir && !e.is_link && !ignored_spec(rel, rules(pats), true)
}

/// Whether the walk keeps the entry as a file: not a directory, no rule ignores it, and it is
/// not the running program.
pub open spec fn keeps(
    rel: Seq<char>,
    e: DirEntry,
    pats: Seq<Pattern>,
    root: Seq<char>,
    self_path: Option<Seq<char>>,
    windows: bool,
) -> bool {
    !e.is_dir && !ignored_spec(rel, rules(pats), false) && !is_self_path_spec(
        root,
        rel,
        self_path,
        windows,
    )
}

/// The relative paths of the entries kept as files, in order.
pub open spec fn kept_files(
    rel_dir: Seq<char>,
    es: Seq<DirEntry>,
    pats: Seq<Pattern>,
    root: Seq<char>,
    self_path: Option<Seq<char>>,
    windows: bool,
) -> Seq<Seq<char>>
    decreases es.len(),
{
    if es.len() == 0 {
        Seq::empty()
    } else {
        let r = kept_files(rel_dir, es.drop_last(), pats, root, self_path, windows);
        let rel = child_rel_spec(rel_dir, es.last().name@);
        if keeps(rel, es.last(), pats, root, self_path, windows) {
            r.push(rel)
        } else {
            r
        }
    }
}

/// The relative paths of the entries descended into, in order.
pub open spec fn entered_dirs(rel_dir: Seq<char>, es: Seq<DirEntry>, pats: Seq<Pattern>) -> Seq<
    Seq<char>,
>
    decreases es.len(),
{
    if es.len() == 0 {
        Seq::empty()
    } else {
        let r = entered_dirs(rel_dir, es.drop_last(), pats);
        let rel = child_rel_spec(rel_dir, es.last().name@);
        if descends(rel, es.last(), pats) {
            r.push(rel)
        } else {
            r
        }
    }
}

/// The state of a walk: directories still to be listed, and the files kept so far.
pub struct FileWalk {
    pending: Vec<String>,
    found: Vec<String>,
}

impl FileWalk {
    /// Directories still to be listed, the last one next.
    pub closed spec fn pending(&self) -> Seq<Seq<char>> {
        self.pending@.map_values(|s: String| s@)
    }

    /// Files kept so far, in the order they were met.
    pub closed spec fn found(&self) -> Seq<Seq<char>> {
        self.found@.map_values(|s: String| s@)
    }

    /// A walk that starts at the root of the work tree.
    pub fn new() -> (w: FileWalk)
        ensures
            w.pending() == seq![Seq::<char>::empty()],
            w.found() == Seq::<Seq<char>>::empty(),
    {
        let w = FileWalk { pending: vec![String::new()], found: Vec::new() };
        assert(w.pending() =~= seq![Seq::<char>::empty()]);
        assert(w.found() =~= Seq::<Seq<char>>::empty());
        w
    }

    /// The next directory to list, if any is left.
    pub fn next_dir(&mut self) -> (d: Option<String>)
        ensures
            old(self).pending().len() == 0 ==> d is None && final(self).pending() == old(
                self,
            ).pending(),
            old(self).pending().len() > 0 ==> (d matches Some(s) && s@ == old(self).pending().last()
                && final(self).pending() == old(self).pending().drop_last()),
            final(self).found() == old(self).found(),
    {
        let d = self.pending.pop();
        assert(self.pending() =~= old(self).pending().take(self.pending@.len() as int));
        proof {
            if old(self).pending().len() > 0 {
                assert(self.pending() =~= old(self).pending().drop_last());
            }
        }
        d
    }

    /// Takes in the listing of directory `rel_dir`: its files are kept and its directories
    /// queued, as `keeps` and `descends` decide.
    pub fn visit(
        &mut self,
        rel_dir: &str,
        entries: &Vec<DirEntry>,
        pats: &[Pattern],
        root: &str,
        self_path: Option<&str>,
        windows: bool,
    )
        ensures
            final(self).found() == old(self).found() + kept_files(
                rel_dir@,
                entries@,
                pats@,
                root@,
                opt_view(self_path),
                windows,
            ),
            final(self).pending() == old(self).pending() + entered_dirs(
                rel_dir@,
                entries@,
                pats@,
            ),
    {
        let ghost f0 = self.found();
        let ghost p0 = self.pending();
        let mut i: usize = 0;
        while i < entries.len()
            invariant
                0 <= i <= entries.len(),
                self.found() == f0 + kept_files(
                    rel_dir@,
                    entries@.take(i as int),
                    pats@,
                    root@,
                    opt_view(self_path),
                    windows,
                ),
                self.pending() == p0 + entered_dirs(rel_dir@, entries@.take(i as int), pats@),
            decreases entries.len() - i,
        {
            let e = &entries[i];
            assert(entries@.take(i + 1).drop_last() =~= entries@.take(i as int));
            assert(entries@.take(i + 1).last() == *e);
            let rel = child_rel(rel_dir, e.name.as_str());
            if e.is_dir {
                if !e.is_link && !is_ignored(rel.as_str(), pats, true) {
                    let ghost before = self.pending@;
                    self.pending.push(rel);
                    assert(self.pending() =~= before.map_values(|s: String| s@).push(
                        child_rel_spec(rel_dir@, e.name@),
                    ));
                }
            } else if !is_ignored(rel.as_str(), pats, false) && !is_self_path(
                root,
                rel.as_str(),
                self_path,
                windows,
            ) {
                let ghost before = self.found@;
                self.found.push(rel);
                assert(self.found() =~= before.map_values(|s: String| s@).push(
                    child_rel_spec(rel_dir@, e.name@),
                ));
            }
            i += 1;
        }
        assert(entries@.take(entries.len() as int) =~= entries@);
    }
}

impl Repo {
    /// The files a walk kept, in ascending path order.
    pub fn iter_files(&self, walk: FileWalk) -> (r: Vec<String>)
        ensures
            strings_sorted(r@),
            r@.map_values(|s: String| s@).to_multiset() == walk.found().to_multiset(),
    {
        let FileWalk { pending: _, found } = walk;
        let r = sort_strings(found);
        proof {
            lemma_view_multiset(r@, found@);
        }
        r
    }
}

/// Sequences with the same strings have the same character sequences.
pub proof fn lemma_view_multiset(a: Seq<String>, b: Seq<String>)
    requires
        a.to_multiset() == b.to_multiset(),
    ensures
        a.map_values(|s: String| s@).to_multiset() == b.map_values(|s: String| s@).to_multiset(),
    decreases a.len(),
{
    broadcast use vstd::seq_lib::group_to_multiset_ensures;
    broadcast use vstd::multiset::group_multiset_axioms;

    if a.len() > 0 {
        let x = a.last();
        let a1 = a.drop_last();
        assert(a =~= a1.push(x));
        assert(b.to_multiset().contains(x));
        let k = choose|k: int| 0 <= k < b.len() && b[k] == x;
        let b1 = b.remove(k);
        vstd::seq_lib::to_multiset_remove(b, k);
        assert(a1.to_multiset() =~= b1.to_multiset());
        lemma_view_multiset(a1, b1);
        let f = |s: String| s@;
        assert(a.map_values(f) =~= a1.map_values(f).push(x@));
        assert(b1.map_values(f) =~= b.map_values(f).remove(k));
        vstd::seq_lib::to_multiset_remove(b.map_values(f), k);
        assert(a.map_values(f).to_multiset() =~= b.map_values(f).to_multiset());
    } else {
        assert(b.to_multiset().len() == 0);
        assert(b.len() == 0);
        assert(a.map_values(|s: String| s@) =~= Seq::<Seq<char>>::empty());
        assert(b.map_values(|s: String| s@) =~= Seq::<Seq<char>>::empty());
    }
}

} // verus!
