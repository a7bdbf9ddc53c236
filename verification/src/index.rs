//! `.snap/index`: what was last seen of each file (size, modification time, change time,
//! content hash), so that status, save and checkout need not hash unchanged files again.
//!
//! A file counts as unchanged when its size and both times match the record, as git's index
//! does. A tool that rewrites content while keeping both times would go unnoticed; setting
//! `SNAP_NO_INDEX=1` makes every hash computed afresh.
use vstd::prelude::*;
use crate::error::SnapError;
use crate::json::{
    as_i64, as_u64, get, int_value, json_parse, json_plain, json_render, member, parse_json,
    render_json, value_get, value_i64, value_str, value_u64, JsonNumber, JsonValue, JSON_LEVELS,
};
use crate::store::opt_view;
use crate::text::{cat, lemma_seq_less_irreflexive, owned, seq_less};
use crate::tree::{keys_sorted, lemma_pairs_map, pairs_map, PathMap, Tree};

verus! {

/// What was seen of one file.
#[derive(Debug)]
pub struct IndexEntry {
    pub size: u64,
    pub mtime: i64,
    pub ctime: i64,
    pub hash: String,
}

/// A file stamp: size, modification time, change time (nanoseconds; a change time of 0 or
/// less means it could not be had).
pub type Stamp = (u64, i64, i64);

/// What the specifications see of an entry.
pub type EntryView = (u64, i64, i64, Seq<char>);

pub open spec fn entry_view(e: IndexEntry) -> EntryView {
    (e.size, e.mtime, e.ctime, e.hash@)
}

/// The index: entries by relative path, when it was written, and whether it changed since.
pub struct Index {
    entries: PathMap<IndexEntry>,
    written: i64,
    dirty: bool,
}

impl Index {
    /// The entries by relative path.
    pub closed spec fn records(&self) -> Map<Seq<char>, EntryView> {
        self.entries@.map_values(|e: IndexEntry| entry_view(e))
    }

    /// The entries in ascending path order.
    pub closed spec fn listing(&self) -> Seq<(Seq<char>, EntryView)> {
        self.entries.pairs().map_values(|p: (Seq<char>, IndexEntry)| (p.0, entry_view(p.1)))
    }

    /// When the index file was written (nanoseconds); entries modified at or after it are
    /// not trusted.
    pub closed spec fn written(&self) -> i64 {
        self.written
    }

    /// Whether the index changed since it was loaded.
    pub closed spec fn dirty(&self) -> bool {
        self.dirty
    }

    /// The entries are kept in strictly ascending path order (as every index value keeps
    /// them).
    pub closed spec fn valid(&self) -> bool {
        self.entries.sorted()
    }

    /// An index with no entries.
    pub fn empty() -> (idx: Index)
        ensures
            idx.records() == Map::<Seq<char>, EntryView>::empty(),
            idx.written() == 0,
            !idx.dirty(),
    {
        let idx = Index { entries: PathMap::new(), written: 0, dirty: false };
        assert(idx.records() =~= Map::<Seq<char>, EntryView>::empty());
        idx
    }
}

// ------------------------------------------------------------------ reading

/// The record one "entries" member gives: an array whose first four items are a `u64`, two
/// `i64` and a string, with a positive change time (older indexes lacked the change time;
/// such entries are dropped and get hashed once more).
pub open spec fn record_of(x: JsonValue) -> Option<EntryView> {
    match x {
        JsonValue::Array(a) => if a@.len() >= 4 {
            match (value_u64(a@[0]), value_i64(a@[1]), value_i64(a@[2]), value_str(a@[3])) {
                (Some(size), Some(mtime), Some(ctime), Some(hash)) => if ctime > 0 {
                    Some((size, mtime, ctime, hash))
                } else {
                    None
                },
                _ => None,
            }
        } else {
            None
        },
        _ => None,
    }
}

/// The records that "entries" members give, a later member winning over an earlier one.
pub open spec fn records_of(es: Seq<(String, JsonValue)>) -> Map<Seq<char>, EntryView>
    decreases es.len(),
{
    if es.len() == 0 {
        Map::empty()
    } else {
        let m = records_of(es.drop_last());
        match record_of(es.last().1) {
            Some(r) => m.insert(es.last().0@, r),
            None => m,
        }
    }
}

/// The records and write time an index file's parsed content gives: none when it is not
/// an object with an "entries" object, and a write time of 0 when "written" is missing.
pub open spec fn index_read(v: JsonValue) -> (Map<Seq<char>, EntryView>, i64) {
    let written = match value_get(v, "written"@) {
        Some(x) => match value_i64(x) {
            Some(n) => n,
            None => 0,
        },
        None => 0,
    };
    let recs = match value_get(v, "entries"@) {
        Some(JsonValue::Object(es)) => records_of(es@),
        _ => Map::empty(),
    };
    (recs, written)
}

fn record_from(x: &JsonValue) -> (r: Option<IndexEntry>)
    ensures
        match r {
            Some(e) => record_of(*x) == Some(entry_view(e)),
            None => record_of(*x) == None::<EntryView>,
        },
{
    match x {
        JsonValue::Array(a) => {
            if a.len() < 4 {
                return None;
            }
            let size = as_u64(&a[0]);
            let mtime = as_i64(&a[1]);
            let ctime = as_i64(&a[2]);
            let hash: Option<String> = match &a[3] {
                JsonValue::Str(h) => Some(h.clone()),
                _ => None,
            };
            match (size, mtime, ctime, hash) {
                (Some(size), Some(mtime), Some(ctime), Some(hash)) => if ctime > 0 {
                    Some(IndexEntry { size, mtime, ctime, hash })
                } else {
                    None
                },
                _ => None,
            }
        },
        _ => None,
    }
}

/// The index from its parsed content (see `index_read`), clean.
pub fn index_from_json(v: &JsonValue) -> (idx: Index)
    ensures
        (idx.records(), idx.written()) == index_read(*v),
        !idx.dirty(),
{
    proof {
        reveal_strlit("written");
        reveal_strlit("entries");
    }
    let written = match get(v, "written") {
        Some(x) => match as_i64(x) {
            Some(n) => n,
            None => 0,
        },
        None => 0,
    };
    let mut entries: PathMap<IndexEntry> = PathMap::new();
    match get(v, "entries") {
        Some(JsonValue::Object(es)) => {
            let mut i: usize = 0;
            while i < es.len()
                invariant
                    0 <= i <= es.len(),
                    entries@.map_values(|e: IndexEntry| entry_view(e)) == records_of(
                        es@.take(i as int),
                    ),
                decreases es.len() - i,
            {
                assert(es@.take(i + 1).drop_last() =~= es@.take(i as int));
                assert(es@.take(i + 1).last() == es@[i as int]);
                match record_from(&es[i].1) {
                    Some(e) => {
                        let ghost before = entries@;
                        let ghost ev = entry_view(e);
                        entries.insert(es[i].0.clone(), e);
                        assert(entries@.map_values(|e: IndexEntry| entry_view(e)) =~= before.map_values(
                            |e: IndexEntry| entry_view(e),
                        ).insert(es@[i as int].0@, ev));
                    },
                    None => {},
                }
                i += 1;
            }
            assert(es@.take(es.len() as int) =~= es@);
        },
        _ => {
            assert(entries@.map_values(|e: IndexEntry| entry_view(e)) =~= Map::<
                Seq<char>,
                EntryView,
            >::empty());
        },
    }
    Index { entries, written, dirty: false }
}

impl Index {
    /// The index from the text of the index file; `None` (no file, unreadable, or the index
    /// switched off) and text that is not JSON both give an empty index.
    pub fn load(text: Option<&str>) -> (idx: Index)
        ensures
            !idx.dirty(),
            match opt_view(text) {
                None => idx.records() == Map::<Seq<char>, EntryView>::empty() && idx.written()
                    == 0,
                Some(t) => match json_parse(t) {
                    Ok(v) => (idx.records(), idx.written()) == index_read(v),
                    Err(_) => idx.records() == Map::<Seq<char>, EntryView>::empty()
                        && idx.written() == 0,
                },
            },
    {
        match text {
            None => Index::empty(),
            Some(t) => match parse_json(t) {
                Ok(v) => index_from_json(&v),
                Err(_) => Index::empty(),
            },
        }
    }

    /// The recorded hash of `rel` when the file is unchanged (see `cached_spec`).
    pub fn cached(&self, rel: &str, size: u64, mtime: i64, ctime: i64) -> (r: Option<String>)
        ensures
            match r {
                Some(h) => cached_spec(self.records(), self.written(), rel@, (size, mtime, ctime))
                    == Some(h@),
                None => cached_spec(self.records(), self.written(), rel@, (size, mtime, ctime))
                    == None::<Seq<char>>,
            },
    {
        if ctime <= 0 || mtime >= self.written {
            return None;
        }
        match self.entries.get(rel) {
            Some(e) => if e.size == size && e.mtime == mtime && e.ctime == ctime {
                Some(e.hash.clone())
            } else {
                None
            },
            None => None,
        }
    }

    /// The content hash of `rel`, whose file has the stamp given: the recorded one when the
    /// file is unchanged (see `cached_spec`); otherwise what `hash_file` computes, which is
    /// then recorded with the stamp.
    pub fn hash_of<F>(
        &mut self,
        rel: &str,
        size: u64,
        mtime: i64,
        ctime: i64,
        hash_file: F,
    ) -> (r: Result<String, SnapError>) where F: FnOnce() -> Result<String, SnapError>
        requires
            call_requires(hash_file, ()),
        ensures
            final(self).written() == old(self).written(),
            match cached_spec(old(self).records(), old(self).written(), rel@, (size, mtime, ctime)) {
                Some(h) => (r matches Ok(x) && x@ == h) && final(self).records() == old(
                    self,
                ).records() && final(self).dirty() == old(self).dirty(),
                None => call_ensures(hash_file, (), r) && match r {
                    Ok(x) => final(self).records() == old(self).records().insert(
                        rel@,
                        (size, mtime, ctime, x@),
                    ) && final(self).dirty(),
                    Err(_) => final(self).records() == old(self).records() && final(self).dirty()
                        == old(self).dirty(),
                },
            },
    {
        if let Some(h) = self.cached(rel, size, mtime, ctime) {
            return Ok(h);
        }
        let r = hash_file();
        match r {
            Ok(h) => {
                self.put(rel, size, mtime, ctime, h.as_str());
                Ok(h)
            },
            Err(e) => Err(e),
        }
    }

    /// Records what was seen of `rel`.
    pub fn put(&mut self, rel: &str, size: u64, mtime: i64, ctime: i64, hash: &str)
        ensures
            final(self).records() == old(self).records().insert(rel@, (size, mtime, ctime, hash@)),
            final(self).written() == old(self).written(),
            final(self).dirty(),
    {
        let ghost before = self.entries@;
        let e = IndexEntry { size, mtime, ctime, hash: owned(hash) };
        let ghost ev = entry_view(e);
        self.entries.insert(owned(rel), e);
        assert(self.records() =~= before.map_values(|e: IndexEntry| entry_view(e)).insert(
            rel@,
            ev,
        ));
        self.dirty = true;
    }

    /// Rebuilds the index from a tree the work tree now matches (after save or checkout):
    /// each path of the tree with the stamp its file has now (`stamps[i]` for the `i`-th
    /// entry; paths whose stamp could not be had are left out), without hashing anything.
    pub fn reset_to(&mut self, tree: &Tree, stamps: &Vec<Option<Stamp>>)
        requires
            stamps@.len() == tree.text_pairs().len(),
        ensures
            final(self).records() == stamped(tree.text_pairs(), stamps@),
            final(self).written() == old(self).written(),
            final(self).dirty(),
    {
        self.entries.clear();
        let ghost ps = tree.text_pairs();
        let n = tree.len();
        let mut i: usize = 0;
        assert(self.records() =~= stamped(ps.take(0), stamps@.take(0)));
        while i < n
            invariant
                0 <= i <= n,
                n == ps.len(),
                ps == tree.text_pairs(),
                stamps@.len() == n,
                self.records() == stamped(ps.take(i as int), stamps@.take(i as int)),
                self.written() == old(self).written(),
            decreases n - i,
        {
            let (rel, hash) = tree.entry(i);
            assert(ps[i as int] == (rel@, hash@));
            assert(ps.take(i + 1).drop_last() =~= ps.take(i as int));
            assert(stamps@.take(i + 1).drop_last() =~= stamps@.take(i as int));
            match stamps[i] {
                Some((size, mtime, ctime)) => {
                    self.put(rel.as_str(), size, mtime, ctime, hash.as_str());
                },
                None => {},
            }
            i += 1;
        }
        assert(ps.take(n as int) =~= ps);
        assert(stamps@.take(n as int) =~= stamps@);
        self.dirty = true;
    }
}

/// The recorded hash of `rel` when the file with stamp `st` counts as unchanged: its change
/// time is known (positive), it was modified before the index was written (a file changed
/// between hashing and writing the index is not trusted, git's "racy" rule), and size and
/// both times equal the record.
pub open spec fn cached_spec(
    recs: Map<Seq<char>, EntryView>,
    written: i64,
    rel: Seq<char>,
    st: Stamp,
) -> Option<Seq<char>> {
    if st.2 > 0 && st.1 < written && recs.contains_key(rel) && recs[rel].0 == st.0
        && recs[rel].1 == st.1 && recs[rel].2 == st.2 {
        Some(recs[rel].3)
    } else {
        None
    }
}

/// What is recorded is what is found again: after recording `hash` for `rel` with stamp
/// `st`, looking `rel` up with the same stamp gives `hash`, unless the stamp cannot be
/// trusted (unknown change time, or modified no earlier than the index was written);
/// other paths are looked up as before.
pub proof fn lemma_put_then_cached(
    recs: Map<Seq<char>, EntryView>,
    written: i64,
    rel: Seq<char>,
    st: Stamp,
    hash: Seq<char>,
    other: Seq<char>,
    ost: Stamp,
)
    ensures
        cached_spec(recs.insert(rel, (st.0, st.1, st.2, hash)), written, rel, st) == (if st.2 > 0
            && st.1 < written {
            Some(hash)
        } else {
            None
        }),
        other != rel ==> cached_spec(recs.insert(rel, (st.0, st.1, st.2, hash)), written, other, ost)
            == cached_spec(recs, written, other, ost),
{
}

/// Every trusted record tells the truth: `truth(rel, stamp)` is the content hash of the file
/// at `rel` while it has that stamp, and each record whose change time is known and which
/// was modified before the index was written holds that hash.
pub open spec fn truthful(
    recs: Map<Seq<char>, EntryView>,
    written: i64,
    truth: spec_fn(Seq<char>, Stamp) -> Seq<char>,
) -> bool {
    forall|rel: Seq<char>|
        #[trigger] recs.contains_key(rel) && recs[rel].2 > 0 && recs[rel].1 < written ==> recs[rel].3
            == truth(rel, (recs[rel].0, recs[rel].1, recs[rel].2))
}

/// The index stays truthful and gives true hashes: when every trusted record tells the
/// truth, the hash `hash_of` gives for a file with stamp `st` (the record's on a hit, the
/// freshly computed one otherwise) is the file's true hash, and recording the fresh hash
/// on a miss keeps every trusted record truthful.
pub proof fn lemma_index_stays_truthful(
    recs: Map<Seq<char>, EntryView>,
    written: i64,
    truth: spec_fn(Seq<char>, Stamp) -> Seq<char>,
    rel: Seq<char>,
    st: Stamp,
)
    requires
        truthful(recs, written, truth),
    ensures
        match cached_spec(recs, written, rel, st) {
            Some(h) => h == truth(rel, st),
            None => truthful(
                recs.insert(rel, (st.0, st.1, st.2, truth(rel, st))),
                written,
                truth,
            ),
        },
{
    match cached_spec(recs, written, rel, st) {
        Some(h) => {
            assert(recs.contains_key(rel));
        },
        None => {
            let m = recs.insert(rel, (st.0, st.1, st.2, truth(rel, st)));
            assert forall|r: Seq<char>|
                #[trigger] m.contains_key(r) && m[r].2 > 0 && m[r].1 < written implies m[r].3
                    == truth(r, (m[r].0, m[r].1, m[r].2)) by {
                if r != rel {
                    assert(recs.contains_key(r));
                }
            }
        },
    }
}

/// The records a tree gives with the stamps of its files: each entry with a stamp.
pub open spec fn stamped(ps: Seq<(Seq<char>, Seq<char>)>, stamps: Seq<Option<Stamp>>) -> Map<
    Seq<char>,
    EntryView,
>
    decreases ps.len(),
{
    if ps.len() == 0 || stamps.len() != ps.len() {
        Map::empty()
    } else {
        let m = stamped(ps.drop_last(), stamps.drop_last());
        match stamps.last() {
            Some(s) => m.insert(ps.last().0, (s.0, s.1, s.2, ps.last().1)),
            None => m,
        }
    }
}

// ------------------------------------------------------------------ writing

/// The JSON number serde_json makes from an `i64`.
pub open spec fn int_json(n: i64) -> JsonValue {
    if n >= 0 {
        JsonValue::Number(JsonNumber::UInt(n as u64))
    } else {
        JsonValue::Number(JsonNumber::Int(n))
    }
}

/// `v` is the JSON of a record: `[size, mtime, ctime, "hash"]`.
pub open spec fn record_json(v: JsonValue, r: EntryView) -> bool {
    &&& v matches JsonValue::Array(a)
    &&& a@.len() == 4
    &&& a@[0] == JsonValue::Number(JsonNumber::UInt(r.0))
    &&& a@[1] == int_json(r.1)
    &&& a@[2] == int_json(r.2)
    &&& a@[3] matches JsonValue::Str(h) && h@ == r.3
}

/// `v` is the JSON of the index file: `{"entries": {path: record, ..}, "version": 2,
/// "written": now}`, the paths in ascending order.
pub open spec fn index_json_spec(v: JsonValue, idx: Index, now: i64) -> bool {
    &&& v matches JsonValue::Object(top)
    &&& top@.len() == 3
    &&& top@[0].0@ == "entries"@
    &&& top@[1].0@ == "version"@ && top@[1].1 == JsonValue::Number(JsonNumber::UInt(2))
    &&& top@[2].0@ == "written"@ && top@[2].1 == int_json(now)
    &&& top@[0].1 matches JsonValue::Object(ms)
    &&& ms@.len() == idx.listing().len()
    &&& forall|i: int|
        0 <= i < ms@.len() ==> (#[trigger] ms@[i]).0@ == idx.listing()[i].0 && record_json(
            ms@[i].1,
            idx.listing()[i].1,
        )
}

impl Index {
    /// The JSON value of the index file, written at `now`.
    pub fn to_json(&self, now: i64) -> (v: JsonValue)
        ensures
            index_json_spec(v, *self, now),
            json_plain(v, JSON_LEVELS as nat),
            self.valid(),
    {
        let n = self.entries.len();
        let mut ms: Vec<(String, JsonValue)> = Vec::new();
        let mut i: usize = 0;
        while i < n
            invariant
                0 <= i <= n,
                n == self.entries.pairs().len(),
                ms@.len() == i,
                forall|k: int|
                    0 <= k < i ==> (#[trigger] ms@[k]).0@ == self.entries.pairs()[k].0
                        && record_json(ms@[k].1, entry_view(self.entries.pairs()[k].1)),
            decreases n - i,
        {
            let (rel, e) = self.entries.entry(i);
            assert(self.listing()[i as int] == (rel@, entry_view(*e)));
            let mut a: Vec<JsonValue> = Vec::new();
            a.push(JsonValue::Number(JsonNumber::UInt(e.size)));
            a.push(int_value(e.mtime));
            a.push(int_value(e.ctime));
            a.push(JsonValue::Str(e.hash.clone()));
            ms.push((rel.clone(), JsonValue::Array(a)));
            i += 1;
        }
        let mut top: Vec<(String, JsonValue)> = Vec::new();
        top.push((owned("entries"), JsonValue::Object(ms)));
        top.push((owned("version"), JsonValue::Number(JsonNumber::UInt(2))));
        top.push((owned("written"), int_value(now)));
        proof {
            reveal_strlit("entries");
            reveal_strlit("version");
            reveal_strlit("written");
        }
        let v = JsonValue::Object(top);
        proof {
            let ps = self.entries.pairs();
            assert(keys_sorted(ps));
            let mv = top@[0].1->Object_0;
            assert forall|i: int| 0 <= i < mv@.len() implies json_plain(
                #[trigger] mv@[i].1,
                125,
            ) by {
                lemma_record_plain(mv@[i].1, self.listing()[i].1, 125);
            }
            assert forall|i: int, j: int| 0 <= i < j < mv@.len() implies seq_less(
                #[trigger] mv@[i].0@,
                #[trigger] mv@[j].0@,
            ) by {
                assert(seq_less(ps[i].0, ps[j].0));
            }
            assert(json_plain(top@[0].1, 126));
            assert(json_plain(top@[1].1, 126));
            lemma_int_json(now, 126);
            assert(json_plain(top@[2].1, 126));
            assert(seq_less(top@[0].0@, top@[1].0@));
            assert(seq_less(top@[1].0@, top@[2].0@));
            assert(seq_less(top@[0].0@, top@[2].0@));
            assert forall|i: int| 0 <= i < top@.len() implies json_plain(
                #[trigger] top@[i].1,
                126,
            ) by {}
            assert(json_plain(v, JSON_LEVELS as nat));
        }
        v
    }

    /// The text to write to the index file at `now`: nothing when the index did not change
    /// or is switched off; serde_json's text of `to_json`, or an error with its message.
    pub fn save(&self, disabled: bool, now: i64) -> (r: Option<Result<String, SnapError>>)
        ensures
            (!self.dirty() || disabled) <==> r is None,
            r matches Some(Ok(s)) ==> exists|v: JsonValue|
                index_json_spec(v, *self, now) && (json_render(v) matches Ok(t) && t == s@) && (
                json_parse(s@) matches Ok(w) && w == v),
            r matches Some(Ok(s)) ==> (json_parse(s@) matches Ok(w) && index_read(w) == (
                kept_records(self.records()),
                now,
            )),
            r matches Some(Err(e)) ==> exists|v: JsonValue|
                index_json_spec(v, *self, now) && (json_render(v) matches Err(m) && e@
                    == "无法生成索引: "@ + m),
    {
        if !self.dirty || disabled {
            return None;
        }
        let v = self.to_json(now);
        proof {
            lemma_index_reads_back(*self, now, v);
        }
        match render_json(&v) {
            Ok(s) => Some(Ok(s)),
            Err(m) => Some(Err(SnapError::from_string(cat("无法生成索引: ", m.as_str())))),
        }
    }
}


/// The records that come back from the index file: those whose change time is known.
pub open spec fn kept_records(m: Map<Seq<char>, EntryView>) -> Map<Seq<char>, EntryView> {
    Map::new(|k: Seq<char>| m.contains_key(k) && m[k].2 > 0, |k: Seq<char>| m[k])
}

proof fn lemma_int_json(n: i64, levels: nat)
    ensures
        value_i64(int_json(n)) == Some(n),
        json_plain(int_json(n), levels),
{
}

proof fn lemma_record_plain(x: JsonValue, r: EntryView, levels: nat)
    requires
        record_json(x, r),
        levels > 0,
    ensures
        json_plain(x, levels),
        record_of(x) == (if r.2 > 0 {
            Some(r)
        } else {
            None
        }),
{
    let a = x->Array_0;
    lemma_int_json(r.1, (levels - 1) as nat);
    lemma_int_json(r.2, (levels - 1) as nat);
    assert forall|i: int| 0 <= i < a@.len() implies json_plain(
        #[trigger] a@[i],
        (levels - 1) as nat,
    ) by {
        if i == 0 {
        } else if i == 1 {
        } else if i == 2 {
        } else {
        }
    }
}

/// The records of the listing's first `n` members, read back.
proof fn lemma_records_prefix(
    ms: Seq<(String, JsonValue)>,
    l: Seq<(Seq<char>, EntryView)>,
    n: int,
)
    requires
        keys_sorted(l),
        ms.len() == l.len(),
        0 <= n <= l.len(),
        forall|i: int|
            0 <= i < l.len() ==> (#[trigger] ms[i]).0@ == l[i].0 && record_json(ms[i].1, l[i].1),
    ensures
        records_of(ms.take(n)) =~= kept_records(pairs_map(l.take(n))),
    decreases n,
{
    if n == 0 {
        assert(ms.take(0) =~= Seq::<(String, JsonValue)>::empty());
        assert(l.take(0) =~= Seq::<(Seq<char>, EntryView)>::empty());
    } else {
        lemma_records_prefix(ms, l, n - 1);
        assert(ms.take(n).drop_last() =~= ms.take(n - 1));
        assert(l.take(n).drop_last() =~= l.take(n - 1));
        assert(ms[n - 1] == ms.take(n).last());
        assert(l[n - 1] == l.take(n).last());
        lemma_record_plain(ms[n - 1].1, l[n - 1].1, 1);
        let pm = pairs_map(l.take(n - 1));
        let k = l[n - 1].0;
        let e = l[n - 1].1;
        assert(keys_sorted(l.take(n - 1)));
        lemma_pairs_map(l.take(n - 1));
        assert(!pm.contains_key(k)) by {
            if pm.contains_key(k) {
                let i = choose|i: int| 0 <= i < n - 1 && #[trigger] l.take(n - 1)[i].0 == k;
                assert(l[i].0 == k);
                assert(seq_less(l[i].0, l[n - 1].0));
                lemma_seq_less_irreflexive(k);
            }
        }
        assert(pairs_map(l.take(n)) == pm.insert(k, e));
        if e.2 > 0 {
            assert(kept_records(pm.insert(k, e)) =~= kept_records(pm).insert(k, e));
        } else {
            assert(kept_records(pm.insert(k, e)) =~= kept_records(pm));
        }
    }
}

/// The map a listing denotes is the index's records.
proof fn lemma_listing_records(ps: Seq<(Seq<char>, IndexEntry)>)
    ensures
        pairs_map(ps.map_values(|p: (Seq<char>, IndexEntry)| (p.0, entry_view(p.1))))
            =~= pairs_map(ps).map_values(|e: IndexEntry| entry_view(e)),
    decreases ps.len(),
{
    if ps.len() > 0 {
        let q = ps.drop_last();
        lemma_listing_records(q);
        assert(ps.map_values(|p: (Seq<char>, IndexEntry)| (p.0, entry_view(p.1))).drop_last()
            =~= q.map_values(|p: (Seq<char>, IndexEntry)| (p.0, entry_view(p.1))));
    }
}

/// What is written is read back: the JSON value of an index (what `save` turns into text,
/// which serde_json reads back as that value) gives, when read, every record whose change
/// time is known, and the time it was written at.
pub proof fn lemma_index_reads_back(idx: Index, now: i64, v: JsonValue)
    requires
        idx.valid(),
        index_json_spec(v, idx, now),
    ensures
        index_read(v) == (kept_records(idx.records()), now),
{
    reveal_strlit("entries");
    reveal_strlit("version");
    reveal_strlit("written");
    let t = v->Object_0@;
    let ms = t[0].1->Object_0;
    assert(t.drop_first()[0] == t[1]);
    assert(t.drop_first().drop_first()[0] == t[2]);
    assert("entries"@[0] != "written"@[0]);
    assert("version"@[0] != "written"@[0]);
    assert(t[0].0@ != "written"@);
    assert(t[1].0@ != "written"@);
    assert(member(t, "written"@) == member(t.drop_first(), "written"@));
    assert(member(t.drop_first(), "written"@) == member(t.drop_first().drop_first(), "written"@));
    assert(member(t, "written"@) == Some(int_json(now)));
    lemma_int_json(now, 0);
    assert(member(t, "entries"@) == Some(t[0].1));
    let l = idx.listing();
    assert(keys_sorted(l)) by {
        assert forall|i: int, j: int| 0 <= i < j < l.len() implies seq_less(
            #[trigger] l[i].0,
            #[trigger] l[j].0,
        ) by {
            assert(seq_less(idx.entries.pairs()[i].0, idx.entries.pairs()[j].0));
        }
    }
    lemma_records_prefix(ms@, l, l.len() as int);
    assert(ms@.take(l.len() as int) =~= ms@);
    assert(l.take(l.len() as int) =~= l);
    lemma_listing_records(idx.entries.pairs());
}

} // verus!
