//! Maps keyed by relative path, kept in ascending key order (the order of `String`'s
//! `Ord`, i.e. code point by code point). A snapshot tree maps each path to the hash of
//! its content; the stat index maps each path to what was last seen of the file.
use vstd::prelude::*;
use crate::text::{chars_of, chars_less, lemma_seq_less_asym, lemma_seq_less_irreflexive,
    lemma_seq_less_total, lemma_seq_less_trans, seq_less};

verus! {

/// Keys strictly ascending.
pub open spec fn keys_sorted<V>(ps: Seq<(Seq<char>, V)>) -> bool {
    forall|i: int, j: int| 0 <= i < j < ps.len() ==> seq_less(#[trigger] ps[i].0, #[trigger] ps[j].0)
}

/// The map that a sequence of entries denotes.
pub open spec fn pairs_map<V>(ps: Seq<(Seq<char>, V)>) -> Map<Seq<char>, V>
    decreases ps.len(),
{
    if ps.len() == 0 {
        Map::empty()
    } else {
        pairs_map(ps.drop_last()).insert(ps.last().0, ps.last().1)
    }
}

pub proof fn lemma_sorted_unique<V>(ps: Seq<(Seq<char>, V)>, i: int, j: int)
    requires
        keys_sorted(ps),
        0 <= i < ps.len(),
        0 <= j < ps.len(),
        ps[i].0 == ps[j].0,
    ensures
        i == j,
{
    if i < j {
        lemma_seq_less_irreflexive(ps[i].0);
    } else if j < i {
        lemma_seq_less_irreflexive(ps[i].0);
    }
}

/// With sorted keys, the map holds exactly the keys of the entries, each with its value.
pub proof fn lemma_pairs_map<V>(ps: Seq<(Seq<char>, V)>)
    requires
        keys_sorted(ps),
    ensures
        forall|k: Seq<char>| #[trigger]
            pairs_map(ps).contains_key(k) <==> exists|i: int|
                0 <= i < ps.len() && #[trigger] ps[i].0 == k,
        forall|i: int| 0 <= i < ps.len() ==> #[trigger] pairs_map(ps)[ps[i].0] == ps[i].1,
        pairs_map(ps).dom().finite(),
        pairs_map(ps).len() == ps.len(),
    decreases ps.len(),
{
    if ps.len() > 0 {
        let q = ps.drop_last();
        assert(keys_sorted(q));
        lemma_pairs_map(q);
        let last = ps.last();
        assert forall|k: Seq<char>| #[trigger]
            pairs_map(ps).contains_key(k) <==> exists|i: int|
                0 <= i < ps.len() && #[trigger] ps[i].0 == k by {
            if pairs_map(ps).contains_key(k) && k != last.0 {
                let i = choose|i: int| 0 <= i < q.len() && #[trigger] q[i].0 == k;
                assert(ps[i].0 == k);
            }
            if exists|i: int| 0 <= i < ps.len() && #[trigger] ps[i].0 == k {
                let i = choose|i: int| 0 <= i < ps.len() && #[trigger] ps[i].0 == k;
                if i < ps.len() - 1 {
                    assert(q[i].0 == k);
                }
            }
        }
        assert forall|i: int| 0 <= i < ps.len() implies #[trigger] pairs_map(ps)[ps[i].0]
            == ps[i].1 by {
            if i < ps.len() - 1 {
                assert(q[i] == ps[i]);
                assert(seq_less(ps[i].0, ps[ps.len() - 1].0));
                lemma_seq_less_irreflexive(ps[i].0);
            }
        }
        if q.len() > 0 {
            assert(!pairs_map(q).contains_key(last.0)) by {
                if pairs_map(q).contains_key(last.0) {
                    let i = choose|i: int| 0 <= i < q.len() && #[trigger] q[i].0 == last.0;
                    assert(seq_less(ps[i].0, ps[ps.len() - 1].0));
                    lemma_seq_less_irreflexive(last.0);
                }
            }
        }
    }
}

/// Replacing the value of an existing key changes the map at that key only.
proof fn lemma_update_at<V>(old_ps: Seq<(Seq<char>, V)>, i: int, k: Seq<char>, v: V)
    requires
        keys_sorted(old_ps),
        0 <= i < old_ps.len(),
        old_ps[i].0 == k,
    ensures
        keys_sorted(old_ps.update(i, (k, v))),
        pairs_map(old_ps.update(i, (k, v))) =~= pairs_map(old_ps).insert(k, v),
{
    let ps = old_ps.update(i, (k, v));
    assert(keys_sorted(ps));
    lemma_pairs_map(ps);
    lemma_pairs_map(old_ps);
    assert forall|key: Seq<char>| #[trigger] pairs_map(ps).contains_key(key)
        <==> pairs_map(old_ps).insert(k, v).contains_key(key) by {
        if exists|j: int| 0 <= j < ps.len() && #[trigger] ps[j].0 == key {
            let j = choose|j: int| 0 <= j < ps.len() && #[trigger] ps[j].0 == key;
            if j != i {
                assert(old_ps[j].0 == key);
            }
        }
        if exists|j: int| 0 <= j < old_ps.len() && #[trigger] old_ps[j].0 == key {
            let j = choose|j: int| 0 <= j < old_ps.len() && #[trigger] old_ps[j].0 == key;
            assert(ps[j].0 == key);
        }
    }
    assert forall|key: Seq<char>| #[trigger] pairs_map(ps).contains_key(key) implies pairs_map(
        ps,
    )[key] == pairs_map(old_ps).insert(k, v)[key] by {
        let j = choose|j: int| 0 <= j < ps.len() && #[trigger] ps[j].0 == key;
        if j != i {
            assert(old_ps[j].0 == key);
            if key == k {
                lemma_sorted_unique(old_ps, i, j);
            }
        }
    }
}

/// Inserting a new key at its sorted position keeps the keys sorted and adds the key.
proof fn lemma_insert_at<V>(old_ps: Seq<(Seq<char>, V)>, i: int, k: Seq<char>, v: V)
    requires
        keys_sorted(old_ps),
        0 <= i <= old_ps.len(),
        forall|j: int| 0 <= j < i ==> #[trigger] seq_less(old_ps[j].0, k),
        i < old_ps.len() ==> seq_less(k, old_ps[i].0),
    ensures
        keys_sorted(old_ps.insert(i, (k, v))),
        !pairs_map(old_ps).contains_key(k),
        pairs_map(old_ps.insert(i, (k, v))) =~= pairs_map(old_ps).insert(k, v),
{
    let ps = old_ps.insert(i, (k, v));
    assert forall|a: int, b: int| 0 <= a < b < ps.len() implies seq_less(
        #[trigger] ps[a].0,
        #[trigger] ps[b].0,
    ) by {
        if b < i {
        } else if a < i && b == i {
        } else if a < i && b > i {
            if b - 1 > i {
                lemma_seq_less_trans(k, old_ps[i].0, old_ps[b - 1].0);
            }
            lemma_seq_less_trans(old_ps[a].0, k, old_ps[b - 1].0);
        } else if a == i {
            if b - 1 > i {
                lemma_seq_less_trans(k, old_ps[i].0, old_ps[b - 1].0);
            }
        } else {
        }
    }
    lemma_pairs_map(ps);
    lemma_pairs_map(old_ps);
    assert(!pairs_map(old_ps).contains_key(k)) by {
        if pairs_map(old_ps).contains_key(k) {
            let j = choose|j: int| 0 <= j < old_ps.len() && #[trigger] old_ps[j].0 == k;
            if j < i {
                lemma_seq_less_irreflexive(k);
            } else {
                if j > i {
                    lemma_seq_less_trans(k, old_ps[i].0, old_ps[j].0);
                }
                lemma_seq_less_irreflexive(k);
            }
        }
    }
    assert forall|key: Seq<char>| #[trigger] pairs_map(ps).contains_key(key)
        <==> pairs_map(old_ps).insert(k, v).contains_key(key) by {
        if pairs_map(ps).contains_key(key) {
            let j = choose|j: int| 0 <= j < ps.len() && #[trigger] ps[j].0 == key;
            if j < i {
                assert(old_ps[j].0 == key);
            } else if j > i {
                assert(old_ps[j - 1].0 == key);
            }
        }
        if pairs_map(old_ps).insert(k, v).contains_key(key) {
            if key == k {
                assert(ps[i].0 == key);
            } else {
                let j = choose|j: int| 0 <= j < old_ps.len() && #[trigger] old_ps[j].0 == key;
                if j < i {
                    assert(ps[j].0 == key);
                } else {
                    assert(ps[j + 1].0 == key);
                }
            }
        }
    }
    assert forall|key: Seq<char>| #[trigger] pairs_map(ps).contains_key(key) implies pairs_map(
        ps,
    )[key] == pairs_map(old_ps).insert(k, v)[key] by {
        let j = choose|j: int| 0 <= j < ps.len() && #[trigger] ps[j].0 == key;
        if j < i {
            assert(old_ps[j].0 == key);
        } else if j > i {
            assert(old_ps[j - 1].0 == key);
        }
    }
}

/// A map keyed by relative path, in ascending key order.
#[derive(Debug)]
pub struct PathMap<V> {
    entries: Vec<(String, V)>,
}

/// A snapshot tree: relative path -> content hash.
pub type Tree = PathMap<String>;

impl<V> PathMap<V> {
    /// The entries, keys as character sequences, in ascending key order.
    pub closed spec fn pairs(&self) -> Seq<(Seq<char>, V)> {
        self.entries@.map_values(|e: (String, V)| (e.0@, e.1))
    }

    #[verifier::type_invariant]
    closed spec fn inv(&self) -> bool {
        keys_sorted(self.pairs())
    }

    /// The keys are in strictly ascending order (which every map keeps).
    pub open spec fn sorted(&self) -> bool {
        keys_sorted(self.pairs())
    }

    /// An empty map.
    pub fn new() -> (t: Self)
        ensures
            t.pairs() == Seq::<(Seq<char>, V)>::empty(),
            t@ == Map::<Seq<char>, V>::empty(),
            t.sorted(),
    {
        let t = PathMap { entries: Vec::new() };
        assert(t.pairs() =~= Seq::<(Seq<char>, V)>::empty());
        t
    }

    /// Number of entries.
    pub fn len(&self) -> (n: usize)
        ensures
            n == self.pairs().len(),
            self.sorted(),
    {
        proof {
            use_type_invariant(self);
        }
        self.entries.len()
    }

    /// Whether the map has no entries.
    pub fn is_empty(&self) -> (b: bool)
        ensures
            b == (self.pairs().len() == 0),
    {
        self.entries.len() == 0
    }

    /// The `i`-th entry in key order.
    pub fn entry(&self, i: usize) -> (e: (&String, &V))
        requires
            i < self.pairs().len(),
        ensures
            (e.0@, *e.1) == self.pairs()[i as int],
    {
        let e = &self.entries[i];
        (&e.0, &e.1)
    }

    fn key_less_at(&self, i: usize, kv: &Vec<char>) -> (b: bool)
        requires
            i < self.pairs().len(),
        ensures
            b == seq_less(self.pairs()[i as int].0, kv@),
    {
        let cur = chars_of(self.entries[i].0.as_str());
        chars_less(&cur, kv)
    }

    /// The first position whose key is not below `kv`.
    fn lower_bound(&self, kv: &Vec<char>) -> (i: usize)
        ensures
            i <= self.pairs().len(),
            forall|j: int| 0 <= j < i ==> #[trigger] seq_less(self.pairs()[j].0, kv@),
            forall|j: int|
                i <= j < self.pairs().len() ==> !#[trigger] seq_less(self.pairs()[j].0, kv@),
    {
        proof {
            use_type_invariant(self);
        }
        let ghost ps = self.pairs();
        let n = self.entries.len();
        // entries usually arrive in ascending order: check the end first
        if n > 0 && self.key_less_at(n - 1, kv) {
            assert forall|j: int| 0 <= j < n implies #[trigger] seq_less(ps[j].0, kv@) by {
                if j < n - 1 {
                    lemma_seq_less_trans(ps[j].0, ps[n - 1].0, kv@);
                }
            }
            return n;
        }
        let mut lo: usize = 0;
        let mut hi: usize = n;
        while lo < hi
            invariant
                0 <= lo <= hi <= n,
                n == ps.len(),
                ps == self.pairs(),
                keys_sorted(ps),
                forall|j: int| 0 <= j < lo ==> #[trigger] seq_less(ps[j].0, kv@),
                forall|j: int| hi <= j < n ==> !#[trigger] seq_less(ps[j].0, kv@),
            decreases hi - lo,
        {
            let mid = lo + (hi - lo) / 2;
            if self.key_less_at(mid, kv) {
                assert forall|j: int| 0 <= j < mid + 1 implies #[trigger] seq_less(
                    ps[j].0,
                    kv@,
                ) by {
                    if j < mid {
                        lemma_seq_less_trans(ps[j].0, ps[mid as int].0, kv@);
                    }
                }
                lo = mid + 1;
            } else {
                assert forall|j: int| mid <= j < n implies !#[trigger] seq_less(ps[j].0, kv@) by {
                    if j > mid && seq_less(ps[j].0, kv@) {
                        lemma_seq_less_trans(ps[mid as int].0, ps[j].0, kv@);
                    }
                }
                hi = mid;
            }
        }
        lo
    }

    /// Where `k` is, or where it would go.
    fn locate(&self, kv: &Vec<char>) -> (r: (usize, bool))
        ensures
            r.0 <= self.pairs().len(),
            forall|j: int| 0 <= j < r.0 ==> #[trigger] seq_less(self.pairs()[j].0, kv@),
            r.1 ==> r.0 < self.pairs().len() && self.pairs()[r.0 as int].0 == kv@,
            !r.1 ==> r.0 < self.pairs().len() ==> seq_less(kv@, self.pairs()[r.0 as int].0),
            r.1 <==> self@.contains_key(kv@),
    {
        proof {
            use_type_invariant(self);
            lemma_pairs_map(self.pairs());
        }
        let ghost ps = self.pairs();
        let i = self.lower_bound(kv);
        let found = if i < self.entries.len() {
            let cur = chars_of(self.entries[i].0.as_str());
            !chars_less(kv, &cur)
        } else {
            false
        };
        proof {
            if i < ps.len() {
                lemma_seq_less_total(ps[i as int].0, kv@);
            }
            if found {
                assert(ps[i as int].0 == kv@);
            } else {
                assert(!pairs_map(ps).contains_key(kv@)) by {
                    if pairs_map(ps).contains_key(kv@) {
                        let j = choose|j: int| 0 <= j < ps.len() && #[trigger] ps[j].0 == kv@;
                        if j < i {
                            lemma_seq_less_irreflexive(kv@);
                        } else {
                            if j > i {
                                lemma_seq_less_trans(kv@, ps[i as int].0, ps[j].0);
                            }
                            lemma_seq_less_irreflexive(kv@);
                        }
                    }
                }
            }
        }
        (i, found)
    }

    /// The value stored under `k`.
    pub fn get(&self, k: &str) -> (r: Option<&V>)
        ensures
            match r {
                Some(v) => self@.contains_key(k@) && self@[k@] == *v,
                None => !self@.contains_key(k@),
            },
    {
        proof {
            use_type_invariant(self);
            lemma_pairs_map(self.pairs());
        }
        let kv = chars_of(k);
        let (i, found) = self.locate(&kv);
        if found {
            Some(&self.entries[i].1)
        } else {
            None
        }
    }

    /// Whether `k` is a key.
    pub fn contains_key(&self, k: &str) -> (b: bool)
        ensures
            b == self@.contains_key(k@),
    {
        self.get(k).is_some()
    }

    /// Stores `v` under `k`, replacing an earlier value.
    pub fn insert(&mut self, k: String, v: V)
        ensures
            final(self)@ == old(self)@.insert(k@, v),
            final(self).pairs().len() == old(self).pairs().len() + (if old(self)@.contains_key(
                k@,
            ) {
                0int
            } else {
                1int
            }),
            final(self).sorted(),
    {
        proof {
            use_type_invariant(&*self);
            lemma_pairs_map(self.pairs());
        }
        let ghost old_ps = self.pairs();
        let kv = chars_of(k.as_str());
        let (i, found) = self.locate(&kv);
        let mut es: Vec<(String, V)> = Vec::new();
        std::mem::swap(&mut es, &mut self.entries);
        assert(old_ps == es@.map_values(|e: (String, V)| (e.0@, e.1)));
        let ghost kk = k@;
        let ghost vv = v;
        if found {
            es.set(i, (k, v));
            proof {
                lemma_update_at(old_ps, i as int, kk, vv);
                assert(es@.map_values(|e: (String, V)| (e.0@, e.1)) =~= old_ps.update(
                    i as int,
                    (kk, vv),
                ));
                lemma_pairs_map(old_ps.update(i as int, (kk, vv)));
            }
        } else {
            es.insert(i, (k, v));
            proof {
                lemma_insert_at(old_ps, i as int, kk, vv);
                assert(es@.map_values(|e: (String, V)| (e.0@, e.1)) =~= old_ps.insert(
                    i as int,
                    (kk, vv),
                ));
                lemma_pairs_map(old_ps.insert(i as int, (kk, vv)));
            }
        }
        self.entries = es;
        proof {
            use_type_invariant(&*self);
        }
    }

    /// Removes every entry.
    pub fn clear(&mut self)
        ensures
            final(self).pairs() == Seq::<(Seq<char>, V)>::empty(),
            final(self)@ == Map::<Seq<char>, V>::empty(),
            final(self).sorted(),
    {
        let mut es: Vec<(String, V)> = Vec::new();
        std::mem::swap(&mut es, &mut self.entries);
        assert(self.pairs() =~= Seq::<(Seq<char>, V)>::empty());
    }
}

impl PathMap<String> {
    /// The entries of a tree, keys and values as character sequences, in key order.
    pub open spec fn text_pairs(&self) -> Seq<(Seq<char>, Seq<char>)> {
        self.pairs().map_values(|e: (Seq<char>, String)| (e.0, e.1@))
    }

    /// A tree as a map from path to hash, both as character sequences.
    pub open spec fn text_view(&self) -> Map<Seq<char>, Seq<char>> {
        self@.map_values(|s: String| s@)
    }
}

/// In a sorted tree, the paths of the entries are the keys of the map, each with its hash.
pub proof fn lemma_text_view(t: Tree)
    requires
        t.sorted(),
    ensures
        forall|k: Seq<char>| #[trigger]
            t.text_view().contains_key(k) <==> exists|i: int|
                0 <= i < t.text_pairs().len() && #[trigger] t.text_pairs()[i].0 == k,
        forall|i: int|
            0 <= i < t.text_pairs().len() ==> #[trigger] t.text_view()[t.text_pairs()[i].0]
                == t.text_pairs()[i].1,
{
    lemma_pairs_map(t.pairs());
    assert forall|k: Seq<char>| #[trigger]
        t.text_view().contains_key(k) <==> exists|i: int|
            0 <= i < t.text_pairs().len() && #[trigger] t.text_pairs()[i].0 == k by {
        if t.text_view().contains_key(k) {
            let i = choose|i: int| 0 <= i < t.pairs().len() && #[trigger] t.pairs()[i].0 == k;
            assert(t.text_pairs()[i].0 == k);
        }
        if exists|i: int| 0 <= i < t.text_pairs().len() && #[trigger] t.text_pairs()[i].0 == k {
            let i = choose|i: int| 0 <= i < t.text_pairs().len() && #[trigger] t.text_pairs()[i].0
                == k;
            assert(t.pairs()[i].0 == k);
        }
    }
    assert forall|i: int| 0 <= i < t.text_pairs().len() implies #[trigger] t.text_view()[t.text_pairs()[i].0]
        == t.text_pairs()[i].1 by {
        assert(t.pairs()[i].0 == t.text_pairs()[i].0);
    }
}

/// Storing a hash stores its characters.
pub proof fn lemma_text_insert(m: Map<Seq<char>, String>, k: Seq<char>, v: String)
    ensures
        m.insert(k, v).map_values(|s: String| s@) == m.map_values(|s: String| s@).insert(k, v@),
{
    assert(m.insert(k, v).map_values(|s: String| s@) =~= m.map_values(|s: String| s@).insert(
        k,
        v@,
    ));
}

impl<V> View for PathMap<V> {
    type V = Map<Seq<char>, V>;

    open spec fn view(&self) -> Map<Seq<char>, V> {
        pairs_map(self.pairs())
    }
}

impl Clone for PathMap<String> {
    fn clone(&self) -> (t: Self)
        ensures
            t.pairs() == self.pairs(),
    {
        proof {
            use_type_invariant(self);
        }
        let mut entries: Vec<(String, String)> = Vec::new();
        let mut i: usize = 0;
        while i < self.entries.len()
            invariant
                0 <= i <= self.entries.len(),
                entries@.map_values(|e: (String, String)| (e.0@, e.1)) == self.pairs().take(
                    i as int,
                ),
                keys_sorted(self.pairs()),
            decreases self.entries.len() - i,
        {
            let e = &self.entries[i];
            let k = e.0.clone();
            let v = e.1.clone();
            assert(v == e.1 && k == e.0);
            assert(self.pairs()[i as int] == (e.0@, e.1));
            let ghost before = entries@;
            entries.push((k, v));
            assert(entries@ == before.push((k, v)));
            assert(entries@.map_values(|e: (String, String)| (e.0@, e.1)) =~= before.map_values(
                |e: (String, String)| (e.0@, e.1),
            ).push((k@, v)));
            assert(entries@.map_values(|e: (String, String)| (e.0@, e.1)) =~= self.pairs().take(
                i + 1,
            ));
            i += 1;
        }
        assert(self.pairs().take(self.entries.len() as int) =~= self.pairs());
        PathMap { entries }
    }
}

} // verus!
