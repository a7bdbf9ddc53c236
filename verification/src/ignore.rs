//! `.snapignore` rules: compiling the rule text and matching paths against it.
//!
//!   `*.log`       a pattern without "/" matches an entry of that name at any depth
//!                 (fnmatch semantics, `[]` character classes included)
//!   `logs/`       a trailing "/" makes a directory rule, which only applies to directories
//!   `keep/c.txt`  a pattern with "/" matches the whole relative path; "*" does not cross
//!                 "/", "**" crosses any number of levels
//!   lines starting with `#` and blank lines are skipped; "!" negation is not supported
use vstd::prelude::*;
use crate::text::{chars_of, has_char, split, split_spec, string_of, trim, trim_end_char_spec, trim_spec};

verus! {

/// One rule: the pattern text and whether it is a directory rule.
#[derive(Clone, Debug)]
pub struct Pattern {
    pub pat: String,
    pub dir_only: bool,
}

impl View for Pattern {
    type V = (Seq<char>, bool);

    open spec fn view(&self) -> (Seq<char>, bool) {
        (self.pat@, self.dir_only)
    }
}

/// The rule lines that always apply, before those of the ignore file.
pub open spec fn default_lines() -> Seq<Seq<char>> {
    seq![
        ".snap/"@,
        ".vsnap/"@,
        ".git/"@,
        "__pycache__/"@,
        "*.pyc"@,
        "*.pyo"@,
        ".DS_Store"@,
        "*.swp"@,
        "*~"@,
    ]
}

/// The rules that always apply, before those of the ignore file.
pub fn default_ignore() -> (v: Vec<&'static str>)
    ensures
        v@.map_values(|s: &str| s@) == default_lines(),
        v@.len() == 9,
        v@[0]@ == ".snap/"@,
        v@[1]@ == ".vsnap/"@,
        v@[2]@ == ".git/"@,
        v@[3]@ == "__pycache__/"@,
        v@[4]@ == "*.pyc"@,
        v@[5]@ == "*.pyo"@,
        v@[6]@ == ".DS_Store"@,
        v@[7]@ == "*.swp"@,
        v@[8]@ == "*~"@,
{
    let v = vec![".snap/", ".vsnap/", ".git/", "__pycache__/", "*.pyc", "*.pyo", ".DS_Store", "*.swp", "*~"];
    assert(v@.map_values(|s: &str| s@) =~= default_lines());
    v
}

// ------------------------------------------------------------------ compiling

/// The rule one line of rule text yields, if any.
pub open spec fn compile_line(raw: Seq<char>) -> Option<(Seq<char>, bool)> {
    let pat = trim_spec(raw);
    if pat.len() == 0 || pat[0] == '#' {
        None
    } else {
        let dir_only = pat.last() == '/';
        let stripped = trim_end_char_spec(pat, '/');
        if stripped.len() == 0 {
            None
        } else {
            Some((stripped, dir_only))
        }
    }
}

/// The rules that a sequence of lines compiles to, in order.
pub open spec fn compile_spec(lines: Seq<Seq<char>>) -> Seq<(Seq<char>, bool)>
    decreases lines.len(),
{
    if lines.len() == 0 {
        Seq::empty()
    } else {
        let rest = compile_spec(lines.drop_last());
        match compile_line(lines.last()) {
            Some(p) => rest.push(p),
            None => rest,
        }
    }
}

/// `s` without its trailing `c` characters.
fn trim_end_char(s: &Vec<char>, c: char) -> (r: Vec<char>)
    ensures
        r@ == trim_end_char_spec(s@, c),
{
    let mut j = s.len();
    assert(s@.take(j as int) =~= s@);
    while j > 0 && s[j - 1] == c
        invariant
            j <= s.len(),
            trim_end_char_spec(s@, c) == trim_end_char_spec(s@.take(j as int), c),
        decreases j,
    {
        assert(s@.take(j as int).drop_last() =~= s@.take(j - 1));
        j -= 1;
    }
    let mut r: Vec<char> = Vec::new();
    let mut i: usize = 0;
    while i < j
        invariant
            j <= s.len(),
            i <= j,
            r@ == s@.take(i as int),
        decreases j - i,
    {
        r.push(s[i]);
        i += 1;
        assert(r@ =~= s@.take(i as int));
    }
    proof {
        assert(s@.take(s.len() as int) =~= s@);
    }
    r
}

/// Compiles rule text, one line per element, into rules; the order is the priority.
pub fn compile(lines: &[&str]) -> (out: Vec<Pattern>)
    ensures
        out@.map_values(|p: Pattern| p@) == compile_spec(lines@.map_values(|l: &str| l@)),
{
    let mut out: Vec<Pattern> = Vec::new();
    let ghost ls = lines@.map_values(|l: &str| l@);
    let mut k: usize = 0;
    while k < lines.len()
        invariant
            0 <= k <= lines.len(),
            ls == lines@.map_values(|l: &str| l@),
            out@.map_values(|p: Pattern| p@) == compile_spec(ls.take(k as int)),
        decreases lines.len() - k,
    {
        let ghost before = out@.map_values(|p: Pattern| p@);
        proof {
            assert(ls.take(k + 1).drop_last() =~= ls.take(k as int));
            assert(ls.take(k + 1).last() == lines@[k as int]@);
        }
        let t = trim(lines[k]);
        let pat = chars_of(t.as_str());
        if pat.len() == 0 || pat[0] == '#' {
        } else {
            let dir_only = pat[pat.len() - 1] == '/';
            let stripped = trim_end_char(&pat, '/');
            if stripped.len() > 0 {
                let p = Pattern { pat: string_of(&stripped), dir_only };
                out.push(p);
                assert(out@.map_values(|p: Pattern| p@) =~= before.push(p@));
            }
        }
        k += 1;
    }
    assert(ls.take(lines.len() as int) =~= ls);
    out
}

// ------------------------------------------------------------------ matching a whole path

/// Whether the anchored pattern `p` (one that contains "/") matches the whole path `s`:
/// "*" does not cross "/", "**/" stands for zero or more levels, "**" crosses anything,
/// "?" is any one character but "/", any other character stands for itself.
pub open spec fn glob_spec(p: Seq<char>, s: Seq<char>) -> bool
    decreases p.len(), s.len() + 1,
{
    if p.len() == 0 {
        s.len() == 0
    } else if p[0] == '*' && p.len() >= 2 && p[1] == '*' {
        let rest = p.skip(2);
        if rest.len() > 0 && rest[0] == '/' {
            let after = rest.skip(1);
            glob_spec(after, s) || glob_after_slash(after, s, 0)
        } else {
            glob_any_suffix(rest, s, 0)
        }
    } else if p[0] == '*' {
        glob_star(p.skip(1), s, 0)
    } else if p[0] == '?' {
        s.len() > 0 && s[0] != '/' && glob_spec(p.skip(1), s.skip(1))
    } else {
        s.len() > 0 && s[0] == p[0] && glob_spec(p.skip(1), s.skip(1))
    }
}

/// Some suffix `s[j..]` with `i <= j <= |s|` matches `q`.
pub open spec fn glob_any_suffix(q: Seq<char>, s: Seq<char>, i: int) -> bool
    decreases q.len() + 1, s.len() - i,
{
    if i < 0 || i > s.len() {
        false
    } else if i == s.len() {
        glob_spec(q, s.skip(i))
    } else {
        glob_spec(q, s.skip(i)) || glob_any_suffix(q, s, i + 1)
    }
}

/// Some "/" at `j >= i` in `s` is followed by a remainder `s[j+1..]` that matches `q`.
pub open spec fn glob_after_slash(q: Seq<char>, s: Seq<char>, i: int) -> bool
    decreases q.len() + 1, s.len() - i,
{
    if i < 0 || i >= s.len() {
        false
    } else {
        (s[i] == '/' && glob_spec(q, s.skip(i + 1))) || glob_after_slash(q, s, i + 1)
    }
}

/// A single "*" at `s[i..]`: it takes `s[i..j]` for some `j >= i` such that `s[i..j]` holds
/// no "/" and `s[j..]` matches `q`.
pub open spec fn glob_star(q: Seq<char>, s: Seq<char>, i: int) -> bool
    decreases q.len() + 1, s.len() - i,
{
    if i < 0 || i > s.len() {
        false
    } else if i == s.len() {
        glob_spec(q, s.skip(i))
    } else {
        glob_spec(q, s.skip(i)) || (s[i] != '/' && glob_star(q, s, i + 1))
    }
}

proof fn lemma_glob_star_exact(q: Seq<char>, s: Seq<char>, i: int)
    requires
        0 <= i <= s.len(),
    ensures
        glob_star(q, s, i) <==> exists|j: int|
            i <= j <= s.len() && !s.subrange(i, j).contains('/') && #[trigger] glob_spec(
                q,
                s.skip(j),
            ),
    decreases s.len() - i,
{
    let ex = exists|j: int|
        i <= j <= s.len() && !s.subrange(i, j).contains('/') && #[trigger] glob_spec(q, s.skip(j));
    assert(s.subrange(i, i) =~= Seq::<char>::empty());
    if glob_spec(q, s.skip(i)) {
        assert(!s.subrange(i, i).contains('/'));
        assert(ex);
    }
    if i < s.len() {
        lemma_glob_star_exact(q, s, i + 1);
        if glob_star(q, s, i) && !glob_spec(q, s.skip(i)) {
            assert(s[i] != '/' && glob_star(q, s, i + 1));
            let j = choose|j: int|
                i + 1 <= j <= s.len() && !s.subrange(i + 1, j).contains('/') && #[trigger] glob_spec(
                    q,
                    s.skip(j),
                );
            let t = s.subrange(i, j);
            assert(!t.contains('/')) by {
                if t.contains('/') {
                    let k = choose|k: int| 0 <= k < t.len() && t[k] == '/';
                    if k == 0 {
                        assert(s[i] == '/');
                    } else {
                        assert(s.subrange(i + 1, j)[k - 1] == '/');
                    }
                }
            }
            assert(ex);
        }
        if ex {
            let j = choose|j: int|
                i <= j <= s.len() && !s.subrange(i, j).contains('/') && #[trigger] glob_spec(
                    q,
                    s.skip(j),
                );
            if j > i {
                let t = s.subrange(i, j);
                assert(t[0] == s[i]);
                assert(s[i] != '/');
                let u = s.subrange(i + 1, j);
                assert(!u.contains('/')) by {
                    if u.contains('/') {
                        let k = choose|k: int| 0 <= k < u.len() && u[k] == '/';
                        assert(t[k + 1] == '/');
                    }
                }
                assert(glob_star(q, s, i + 1));
            }
        }
    } else {
        if ex {
            let j = choose|j: int|
                i <= j <= s.len() && !s.subrange(i, j).contains('/') && #[trigger] glob_spec(
                    q,
                    s.skip(j),
                );
            assert(j == i);
        }
    }
}

/// A single "*" in an anchored pattern stands for any run without "/", the empty run
/// included: `*q` (with `q` not starting with another "*") matches `s` exactly when `q`
/// matches what follows some "/"-free prefix of `s`.
pub proof fn lemma_glob_star_any_run(q: Seq<char>, s: Seq<char>)
    requires
        q.len() == 0 || q[0] != '*',
    ensures
        glob_spec(seq!['*'] + q, s) <==> exists|j: int|
            0 <= j <= s.len() && !s.take(j).contains('/') && #[trigger] glob_spec(q, s.skip(j)),
        glob_spec(q, s) ==> glob_spec(seq!['*'] + q, s),
{
    let p = seq!['*'] + q;
    assert(p[0] == '*');
    assert(p.skip(1) =~= q);
    assert(!(p.len() >= 2 && p[1] == '*'));
    lemma_glob_star_exact(q, s, 0);
    assert forall|j: int| 0 <= j <= s.len() implies s.take(j) == s.subrange(0, j) by {
        assert(s.take(j) =~= s.subrange(0, j));
    }
    if glob_spec(q, s) {
        assert(s.skip(0) =~= s);
        assert(s.take(0) =~= Seq::<char>::empty());
    }
}

#[verifier::loop_isolation(false)]
fn glob_at(p: &Vec<char>, pi: usize, s: &Vec<char>, si: usize) -> (r: bool)
    requires
        pi <= p.len(),
        si <= s.len(),
    ensures
        r == glob_spec(p@.skip(pi as int), s@.skip(si as int)),
    decreases p.len() - pi,
{
    let ghost ps = p@.skip(pi as int);
    let ghost ss = s@.skip(si as int);
    if pi == p.len() {
        return si == s.len();
    }
    assert(ps[0] == p@[pi as int]);
    if pi + 1 < p.len() {
        assert(ps[1] == p@[pi + 1]);
    }
    if si < s.len() {
        assert(ss[0] == s@[si as int]);
        assert(ss.skip(1) =~= s@.skip(si + 1));
    }
    if p[pi] == '*' && pi + 1 < p.len() && p[pi + 1] == '*' {
        let ghost rest = ps.skip(2);
        assert(rest =~= p@.skip(pi + 2));
        if pi + 2 < p.len() {
            assert(rest[0] == p@[pi + 2]);
        }
        if pi + 2 < p.len() && p[pi + 2] == '/' {
            let ghost after = rest.skip(1);
            assert(after =~= p@.skip(pi + 3));
            assert(ss.skip(0) =~= ss);
            if glob_at(p, pi + 3, s, si) {
                return true;
            }
            let mut i = si;
            while i < s.len()
                invariant
                    si <= i <= s.len(),
                    pi + 3 <= p.len(),
                    ss == s@.skip(si as int),
                    after == p@.skip(pi + 3),
                    glob_after_slash(after, ss, 0) == glob_after_slash(after, ss, i - si),
                decreases s.len() - i,
            {
                assert(ss.skip(i - si + 1) =~= s@.skip(i + 1));
                assert(ss[i - si] == s@[i as int]);
                if s[i] == '/' {
                    if glob_at(p, pi + 3, s, i + 1) {
                        return true;
                    }
                }
                i += 1;
            }
            return false;
        }
        let mut i = si;
        loop
            invariant
                si <= i <= s.len(),
                pi + 2 <= p.len(),
                ss == s@.skip(si as int),
                rest == p@.skip(pi + 2),
                glob_any_suffix(rest, ss, 0) == glob_any_suffix(rest, ss, i - si),
            decreases s.len() - i,
        {
            assert(ss.skip(i - si) =~= s@.skip(i as int));
            if glob_at(p, pi + 2, s, i) {
                return true;
            }
            if i == s.len() {
                return false;
            }
            i += 1;
        }
    }
    if p[pi] == '*' {
        let ghost rest = ps.skip(1);
        assert(rest =~= p@.skip(pi + 1));
        let mut i = si;
        loop
            invariant
                si <= i <= s.len(),
                pi + 1 <= p.len(),
                ss == s@.skip(si as int),
                rest == p@.skip(pi + 1),
                glob_star(rest, ss, 0) == glob_star(rest, ss, i - si),
            decreases s.len() - i,
        {
            assert(ss.skip(i - si) =~= s@.skip(i as int));
            if glob_at(p, pi + 1, s, i) {
                return true;
            }
            if i >= s.len() {
                return false;
            }
            assert(ss[i - si] == s@[i as int]);
            if s[i] == '/' {
                return false;
            }
            i += 1;
        }
    }
    if p[pi] == '?' {
        if si == s.len() || s[si] == '/' {
            return false;
        }
        assert(ps.skip(1) =~= p@.skip(pi + 1));
        return glob_at(p, pi + 1, s, si + 1);
    }
    if si < s.len() && s[si] == p[pi] {
        assert(ps.skip(1) =~= p@.skip(pi + 1));
        return glob_at(p, pi + 1, s, si + 1);
    }
    false
}

/// Matches an anchored pattern against a whole path.
fn glob_match(pat: &str, s: &str) -> (r: bool)
    ensures
        r == glob_spec(pat@, s@),
{
    let p = chars_of(pat);
    let t = chars_of(s);
    assert(p@.skip(0) =~= p@);
    assert(t@.skip(0) =~= t@);
    glob_at(&p, 0, &t, 0)
}

// ------------------------------------------------------------------ matching one path segment

/// A character class: whether it is negated, and its ranges.
pub struct CharSet {
    pub negate: bool,
    pub ranges: Vec<(char, char)>,
}

pub open spec fn class_hit(negate: bool, ranges: Seq<(char, char)>, c: char) -> bool {
    (exists|k: int|
        0 <= k < ranges.len() && (ranges[k].0 as int) <= (c as int) && (c as int) <= (
        #[trigger] ranges[k]).1 as int) != negate
}

impl CharSet {
    /// Whether `c` belongs to the class.
    fn hit(&self, c: char) -> (b: bool)
        ensures
            b == class_hit(self.negate, self.ranges@, c),
    {
        let mut k: usize = 0;
        while k < self.ranges.len()
            invariant
                0 <= k <= self.ranges.len(),
                forall|j: int|
                    0 <= j < k ==> !((self.ranges@[j].0 as int) <= (c as int) && (c as int) <= (
                    #[trigger] self.ranges@[j]).1 as int),
            decreases self.ranges.len() - k,
        {
            let (a, b) = self.ranges[k];
            if a <= c && c <= b {
                assert((self.ranges@[k as int].0 as int) <= (c as int) && (c as int) <= (
                self.ranges@[k as int]).1 as int);
                return !self.negate;
            }
            k += 1;
        }
        self.negate
    }
}

/// Scanning the body of a class from position `i`: the ranges so far and whether the
/// next character is the first one (a `]` there is literal). `None` when it is unterminated.
pub open spec fn class_scan(p: Seq<char>, i: int, ranges: Seq<(char, char)>, first: bool) -> Option<
    (Seq<(char, char)>, int),
>
    decreases p.len() - i,
{
    if i < 0 || i >= p.len() {
        None
    } else if p[i] == ']' && !first {
        Some((ranges, i + 1))
    } else if i + 2 < p.len() && p[i + 1] == '-' && p[i + 2] != ']' {
        class_scan(p, i + 3, ranges.push((p[i], p[i + 2])), false)
    } else {
        class_scan(p, i + 1, ranges.push((p[i], p[i])), false)
    }
}

/// The class that `p` (starting with `[`) opens: (negated, ranges, characters used).
pub open spec fn class_spec(p: Seq<char>) -> Option<(bool, Seq<(char, char)>, int)> {
    let negate = p.len() > 1 && p[1] == '!';
    let start = if negate { 2int } else { 1int };
    match class_scan(p, start, Seq::empty(), true) {
        Some((ranges, used)) => Some((negate, ranges, used)),
        None => None,
    }
}

pub proof fn lemma_class_scan_used(p: Seq<char>, i: int, ranges: Seq<(char, char)>, first: bool)
    ensures
        class_scan(p, i, ranges, first) matches Some((_, used)) ==> i < used <= p.len(),
    decreases p.len() - i,
{
    if 0 <= i < p.len() && !(p[i] == ']' && !first) {
        if i + 2 < p.len() && p[i + 1] == '-' && p[i + 2] != ']' {
            lemma_class_scan_used(p, i + 3, ranges.push((p[i], p[i + 2])), false);
        } else {
            lemma_class_scan_used(p, i + 1, ranges.push((p[i], p[i])), false);
        }
    }
}

pub proof fn lemma_class_used(p: Seq<char>)
    ensures
        class_spec(p) matches Some((_, _, used)) ==> 1 <= used <= p.len(),
{
    let negate = p.len() > 1 && p[1] == '!';
    let start = if negate { 2int } else { 1int };
    lemma_class_scan_used(p, start, Seq::empty(), true);
}

/// Parses the class that `p[at..]` (which starts with `[`) opens; returns the class and the
/// number of characters it takes. A `]` right after the opening (or after `!`) is literal.
fn parse_class(p: &Vec<char>, at: usize) -> (r: Option<(CharSet, usize)>)
    requires
        at < p.len(),
    ensures
        match (r, class_spec(p@.skip(at as int))) {
            (Some((set, used)), Some((negate, ranges, used2))) => set.negate == negate
                && set.ranges@ == ranges && used as int == used2,
            (None, None) => true,
            _ => false,
        },
{
    let ghost q = p@.skip(at as int);
    let mut i: usize = at + 1;
    let mut negate = false;
    if i < p.len() && p[i] == '!' {
        negate = true;
        i += 1;
    }
    let ghost start = (i - at) as int;
    assert(negate == (q.len() > 1 && q[1] == '!'));
    let mut ranges: Vec<(char, char)> = Vec::new();
    let mut first = true;
    loop
        invariant
            at < p.len(),
            at + 1 <= i,
            q == p@.skip(at as int),
            negate == (q.len() > 1 && q[1] == '!'),
            start == (if negate { 2int } else { 1int }),
            class_scan(q, (i - at) as int, ranges@, first) == class_scan(
                q,
                start,
                Seq::empty(),
                true,
            ),
        decreases p.len() - i,
    {
        let ghost j = (i - at) as int;
        if i >= p.len() {
            return None;
        }
        let c = p[i];
        assert(q[j] == c);
        if c == ']' && !first {
            return Some((CharSet { negate, ranges }, i + 1 - at));
        }
        first = false;
        if p.len() - i > 2 && p[i + 1] == '-' && p[i + 2] != ']' {
            assert(q[j + 1] == p@[i + 1]);
            assert(q[j + 2] == p@[i + 2]);
            ranges.push((c, p[i + 2]));
            i += 3;
        } else {
            proof {
                if j + 2 < q.len() {
                    assert(q[j + 1] == p@[i + 1]);
                    assert(q[j + 2] == p@[i + 2]);
                }
            }
            ranges.push((c, c));
            i += 1;
        }
    }
}

/// Whether the segment `s` matches the segment pattern `p` (fnmatch, case-sensitive):
/// "*" any run, "?" any one character, `[...]`/`[!...]` a class, else the literal character.
pub open spec fn seg_spec(s: Seq<char>, p: Seq<char>) -> bool
    decreases p.len(), s.len() + 1,
{
    if p.len() == 0 {
        s.len() == 0
    } else if p[0] == '*' {
        seg_any_suffix(s, p.skip(1), 0)
    } else if p[0] == '?' {
        s.len() > 0 && seg_spec(s.skip(1), p.skip(1))
    } else if p[0] == '[' {
        match class_spec(p) {
            Some((negate, ranges, used)) => {
                proof {
                    lemma_class_used(p);
                }
                s.len() > 0 && class_hit(negate, ranges, s[0]) && seg_spec(s.skip(1), p.skip(used))
            },
            None => s.len() > 0 && s[0] == '[' && seg_spec(s.skip(1), p.skip(1)),
        }
    } else {
        s.len() > 0 && s[0] == p[0] && seg_spec(s.skip(1), p.skip(1))
    }
}

/// Some suffix `s[j..]` with `i <= j <= |s|` matches the segment pattern `q`.
pub open spec fn seg_any_suffix(s: Seq<char>, q: Seq<char>, i: int) -> bool
    decreases q.len() + 1, s.len() - i,
{
    if i < 0 || i > s.len() {
        false
    } else if i == s.len() {
        seg_spec(s.skip(i), q)
    } else {
        seg_spec(s.skip(i), q) || seg_any_suffix(s, q, i + 1)
    }
}

proof fn lemma_any_suffix_intro(s: Seq<char>, q: Seq<char>, i: int, j: int)
    requires
        0 <= i <= j <= s.len(),
        seg_spec(s.skip(j), q),
    ensures
        seg_any_suffix(s, q, i),
    decreases j - i,
{
    if i < j {
        lemma_any_suffix_intro(s, q, i + 1, j);
    }
}

proof fn lemma_any_suffix_elim(s: Seq<char>, q: Seq<char>, i: int)
    requires
        seg_any_suffix(s, q, i),
    ensures
        exists|j: int| i <= j <= s.len() && #[trigger] seg_spec(s.skip(j), q),
    decreases s.len() - i,
{
    if i < s.len() && !seg_spec(s.skip(i), q) {
        lemma_any_suffix_elim(s, q, i + 1);
    } else {
        assert(seg_spec(s.skip(i), q));
    }
}

/// A "*" in a segment pattern stands for any run of characters, the empty run included:
/// `*q` matches `s` exactly when `q` matches some suffix of `s` (all of `s` among them).
pub proof fn lemma_star_any_run(s: Seq<char>, q: Seq<char>)
    ensures
        seg_spec(s, seq!['*'] + q) <==> exists|j: int| 0 <= j <= s.len() && #[trigger] seg_spec(
            s.skip(j),
            q,
        ),
        seg_spec(s, q) ==> seg_spec(s, seq!['*'] + q),
{
    let p = seq!['*'] + q;
    assert(p[0] == '*');
    assert(p.skip(1) =~= q);
    if seg_spec(s, p) {
        lemma_any_suffix_elim(s, q, 0);
    }
    if exists|j: int| 0 <= j <= s.len() && #[trigger] seg_spec(s.skip(j), q) {
        let j = choose|j: int| 0 <= j <= s.len() && #[trigger] seg_spec(s.skip(j), q);
        lemma_any_suffix_intro(s, q, 0, j);
    }
    if seg_spec(s, q) {
        assert(s.skip(0) =~= s);
        lemma_any_suffix_intro(s, q, 0, 0);
    }
}

/// A leading "*" absorbs any prefix: when `q` matches `t`, `*q` matches `u` followed by `t`
/// for every `u` (the empty one too).
pub proof fn lemma_star_absorbs(u: Seq<char>, t: Seq<char>, q: Seq<char>)
    requires
        seg_spec(t, q),
    ensures
        seg_spec(u + t, seq!['*'] + q),
{
    let s = u + t;
    assert(s.skip(u.len() as int) =~= t);
    lemma_star_any_run(s, q);
}

proof fn lemma_class_scan_star(p: Seq<char>, i: int, ranges: Seq<(char, char)>, first: bool)
    ensures
        class_scan(p.push('*'), i, ranges, first) == class_scan(p, i, ranges, first),
    decreases p.len() + 1 - i,
{
    let e = p.push('*');
    if i < 0 || i > p.len() {
    } else if i == p.len() {
        assert(e[i] == '*');
        assert(class_scan(e, i + 1, ranges.push((e[i], e[i])), false) is None);
    } else {
        assert(e[i] == p[i]);
        if p[i] == ']' && !first {
        } else if i + 2 < p.len() {
            assert(e[i + 1] == p[i + 1] && e[i + 2] == p[i + 2]);
            if p[i + 1] == '-' && p[i + 2] != ']' {
                lemma_class_scan_star(p, i + 3, ranges.push((p[i], p[i + 2])), false);
            } else {
                lemma_class_scan_star(p, i + 1, ranges.push((p[i], p[i])), false);
            }
        } else if i + 2 == p.len() {
            assert(e[i + 1] == p[i + 1] && e[i + 2] == '*');
            if p[i + 1] == '-' {
                let r1 = ranges.push((p[i], p[i]));
                assert(class_scan(e, i + 3, ranges.push((e[i], e[i + 2])), false) is None);
                assert(class_scan(p, i + 2, r1.push((p[i + 1], p[i + 1])), false) is None);
                assert(class_scan(p, i + 1, r1, false) is None);
            } else {
                lemma_class_scan_star(p, i + 1, ranges.push((p[i], p[i])), false);
            }
        } else {
            lemma_class_scan_star(p, i + 1, ranges.push((p[i], p[i])), false);
        }
    }
}

proof fn lemma_class_star(p: Seq<char>)
    requires
        p.len() >= 1,
    ensures
        class_spec(p.push('*')) == class_spec(p),
{
    let e = p.push('*');
    assert((e.len() > 1 && e[1] == '!') == (p.len() > 1 && p[1] == '!')) by {
        if p.len() > 1 {
            assert(e[1] == p[1]);
        } else {
            assert(e[1] == '*');
        }
    }
    lemma_class_scan_star(p, 1, Seq::empty(), true);
    lemma_class_scan_star(p, 2, Seq::empty(), true);
}

/// A trailing "*" may stand for nothing: whatever `p` matches, `p*` matches too.
pub proof fn lemma_trailing_star(s: Seq<char>, p: Seq<char>)
    requires
        seg_spec(s, p),
    ensures
        seg_spec(s, p + seq!['*']),
    decreases p.len(),
{
    let e = p + seq!['*'];
    assert(e =~= p.push('*'));
    if p.len() == 0 {
        assert(e =~= seq!['*'] + Seq::<char>::empty());
        lemma_star_any_run(s, Seq::<char>::empty());
    } else {
        assert(e[0] == p[0]);
        assert(e.skip(1) =~= p.skip(1) + seq!['*']);
        if p[0] == '*' {
            lemma_any_suffix_elim(s, p.skip(1), 0);
            let j = choose|j: int| 0 <= j <= s.len() && #[trigger] seg_spec(s.skip(j), p.skip(1));
            lemma_trailing_star(s.skip(j), p.skip(1));
            lemma_any_suffix_intro(s, p.skip(1) + seq!['*'], 0, j);
        } else if p[0] == '?' {
            lemma_trailing_star(s.skip(1), p.skip(1));
        } else if p[0] == '[' {
            lemma_class_star(p);
            lemma_class_used(p);
            match class_spec(p) {
                Some((negate, ranges, used)) => {
                    assert(e.skip(used) =~= p.skip(used) + seq!['*']);
                    lemma_trailing_star(s.skip(1), p.skip(used));
                },
                None => {
                    lemma_trailing_star(s.skip(1), p.skip(1));
                },
            }
        } else {
            lemma_trailing_star(s.skip(1), p.skip(1));
        }
    }
}

/// A segment pattern without "*", "?" or "[" matches exactly the segment it spells.
pub proof fn lemma_literal_segment(s: Seq<char>, p: Seq<char>)
    requires
        forall|k: int| 0 <= k < p.len() ==> #[trigger] p[k] != '*' && p[k] != '?' && p[k] != '[',
    ensures
        seg_spec(s, p) <==> s == p,
    decreases p.len(),
{
    if p.len() > 0 {
        assert(p[0] != '*' && p[0] != '?' && p[0] != '[');
        assert forall|k: int| 0 <= k < p.skip(1).len() implies #[trigger] p.skip(1)[k] != '*'
            && p.skip(1)[k] != '?' && p.skip(1)[k] != '[' by {
            assert(p.skip(1)[k] == p[k + 1]);
        }
        assert(seg_spec(s, p) == (s.len() > 0 && s[0] == p[0] && seg_spec(s.skip(1), p.skip(1))));
        if s.len() > 0 {
            lemma_literal_segment(s.skip(1), p.skip(1));
            if s == p {
                assert(s.skip(1) =~= p.skip(1));
            }
            if s[0] == p[0] && s.skip(1) == p.skip(1) {
                assert(s.len() == p.len());
                assert forall|k: int| 0 <= k < s.len() implies s[k] == p[k] by {
                    if k > 0 {
                        assert(s.skip(1)[k - 1] == p.skip(1)[k - 1]);
                    }
                }
                assert(s =~= p);
            }
        }
    } else {
        if s.len() == 0 {
            assert(s =~= p);
        }
    }
}

/// A "?" stands for exactly one character: `?q` matches `c` followed by `t` exactly when `q`
/// matches `t`, and never matches the empty segment.
pub proof fn lemma_question_one_char(c: char, t: Seq<char>, q: Seq<char>)
    ensures
        seg_spec(seq![c] + t, seq!['?'] + q) <==> seg_spec(t, q),
        !seg_spec(Seq::<char>::empty(), seq!['?'] + q),
{
    let p = seq!['?'] + q;
    assert(p[0] == '?');
    assert(p.skip(1) =~= q);
    assert((seq![c] + t).skip(1) =~= t);
}

#[verifier::loop_isolation(false)]
fn seg_at(s: &Vec<char>, si: usize, p: &Vec<char>, pi: usize) -> (r: bool)
    requires
        pi <= p.len(),
        si <= s.len(),
    ensures
        r == seg_spec(s@.skip(si as int), p@.skip(pi as int)),
    decreases p.len() - pi,
{
    let ghost ps = p@.skip(pi as int);
    let ghost ss = s@.skip(si as int);
    if pi == p.len() {
        return si == s.len();
    }
    assert(ps[0] == p@[pi as int]);
    assert(ps.skip(1) =~= p@.skip(pi + 1));
    if si < s.len() {
        assert(ss.skip(1) =~= s@.skip(si + 1));
        assert(ss[0] == s@[si as int]);
    }
    let c = p[pi];
    if c == '*' {
        let mut i = si;
        loop
            invariant
                si <= i <= s.len(),
                pi + 1 <= p.len(),
                ss == s@.skip(si as int),
                ps == p@.skip(pi as int),
                seg_any_suffix(ss, ps.skip(1), 0) == seg_any_suffix(ss, ps.skip(1), i - si),
            decreases s.len() - i,
        {
            assert(ss.skip(i - si) =~= s@.skip(i as int));
            assert(ps.skip(1) =~= p@.skip(pi + 1));
            if seg_at(s, i, p, pi + 1) {
                return true;
            }
            if i == s.len() {
                return false;
            }
            i += 1;
        }
    }
    if c == '?' {
        return si < s.len() && seg_at(s, si + 1, p, pi + 1);
    }
    if c == '[' {
        match parse_class(p, pi) {
            Some((set, used)) => {
                proof {
                    lemma_class_used(ps);
                    assert(ps.skip(used as int) =~= p@.skip(pi + used));
                }
                return si < s.len() && set.hit(s[si]) && seg_at(s, si + 1, p, pi + used);
            },
            None => {
                return si < s.len() && s[si] == '[' && seg_at(s, si + 1, p, pi + 1);
            },
        }
    }
    si < s.len() && s[si] == c && seg_at(s, si + 1, p, pi + 1)
}

/// Matches one path segment against a pattern without "/".
fn segment_match(seg: &Vec<char>, pat: &Vec<char>) -> (r: bool)
    ensures
        r == seg_spec(seg@, pat@),
{
    assert(seg@.skip(0) =~= seg@);
    assert(pat@.skip(0) =~= pat@);
    seg_at(seg, 0, pat, 0)
}

// ------------------------------------------------------------------ rules against a path

/// The path segments that a rule without "/" is tried on: all of them, except that a
/// directory rule tried on a file skips the last one (the file's own name).
pub open spec fn rule_segments(parts: Seq<Seq<char>>, dir_only: bool, is_dir: bool) -> Seq<
    Seq<char>,
> {
    if dir_only && !is_dir {
        parts.take(if parts.len() > 0 { parts.len() - 1 } else { 0 })
    } else {
        parts
    }
}

/// Whether the rule `p` hits the path `rel` (a file, or a directory when `is_dir`).
pub open spec fn rule_hits(p: (Seq<char>, bool), rel: Seq<char>, is_dir: bool) -> bool {
    if p.0.contains('/') {
        glob_spec(p.0, rel) && (is_dir || !p.1)
    } else {
        let segs = rule_segments(split_spec(rel, '/'), p.1, is_dir);
        exists|j: int| 0 <= j < segs.len() && #[trigger] seg_spec(segs[j], p.0)
    }
}

/// Whether some rule of `pats` hits `rel`.
pub open spec fn ignored_spec(rel: Seq<char>, pats: Seq<(Seq<char>, bool)>, is_dir: bool) -> bool {
    exists|i: int| 0 <= i < pats.len() && #[trigger] rule_hits(pats[i], rel, is_dir)
}

/// Whether `rel` (a "/"-separated relative path; a directory when `is_dir`) is ignored.
#[verifier::loop_isolation(false)]
pub fn is_ignored(rel: &str, pats: &[Pattern], is_dir: bool) -> (r: bool)
    ensures
        r == ignored_spec(rel@, pats@.map_values(|p: Pattern| p@), is_dir),
{
    let ghost ps = pats@.map_values(|p: Pattern| p@);
    let rv = chars_of(rel);
    let parts = split(&rv, '/');
    let ghost parts_v = parts@.map_values(|q: Vec<char>| q@);
    let mut i: usize = 0;
    while i < pats.len()
        invariant
            0 <= i <= pats.len(),
            ps == pats@.map_values(|p: Pattern| p@),
            rv@ == rel@,
            parts_v == parts@.map_values(|q: Vec<char>| q@),
            parts_v == split_spec(rel@, '/'),
            parts.len() >= 1,
            forall|k: int| 0 <= k < i ==> !#[trigger] rule_hits(ps[k], rel@, is_dir),
        decreases pats.len() - i,
    {
        let p = &pats[i];
        assert(ps[i as int] == p@);
        let pv = chars_of(p.pat.as_str());
        if has_char(&pv, '/') {
            if glob_match(p.pat.as_str(), rel) && (is_dir || !p.dir_only) {
                assert(rule_hits(ps[i as int], rel@, is_dir));
                return true;
            }
        } else {
            let n = if p.dir_only && !is_dir {
                parts.len() - 1
            } else {
                parts.len()
            };
            let ghost segs = rule_segments(parts_v, p.dir_only, is_dir);
            assert(segs.len() == n);
            let mut j: usize = 0;
            while j < n
                invariant
                    0 <= j <= n <= parts.len(),
                    segs.len() == n,
                    pv@ == p.pat@,
                    forall|k: int| 0 <= k < n ==> #[trigger] segs[k] == parts@[k]@,
                    forall|k: int| 0 <= k < j ==> !#[trigger] seg_spec(segs[k], pv@),
                decreases n - j,
            {
                if segment_match(&parts[j], &pv) {
                    assert(seg_spec(segs[j as int], pv@));
                    assert(ps[i as int].0 == pv@);
                    assert(!ps[i as int].0.contains('/'));
                    assert(segs == rule_segments(split_spec(rel@, '/'), ps[i as int].1, is_dir));
                    assert(rule_hits(ps[i as int], rel@, is_dir));
                    return true;
                }
                j += 1;
            }
            assert(!rule_hits(ps[i as int], rel@, is_dir));
        }
        i += 1;
    }
    false
}


// ------------------------------------------------------------------ laws of the rules

/// Compiling lines one after another gives the rules of each in turn.
pub proof fn lemma_compile_concat(a: Seq<Seq<char>>, b: Seq<Seq<char>>)
    ensures
        compile_spec(a + b) == compile_spec(a) + compile_spec(b),
    decreases b.len(),
{
    if b.len() == 0 {
        assert(a + b =~= a);
        assert(compile_spec(a) + compile_spec(b) =~= compile_spec(a));
    } else {
        lemma_compile_concat(a, b.drop_last());
        assert((a + b).drop_last() =~= a + b.drop_last());
        assert((a + b).last() == b.last());
        match compile_line(b.last()) {
            Some(r) => {
                assert(compile_spec(a) + compile_spec(b) =~= (compile_spec(a) + compile_spec(
                    b.drop_last(),
                )).push(r));
            },
            None => {},
        }
    }
}

/// Comments and blank lines make no rules: putting one anywhere among the lines leaves the
/// rules as they were.
pub proof fn lemma_comment_lines_inert(a: Seq<Seq<char>>, line: Seq<char>, b: Seq<Seq<char>>)
    requires
        trim_spec(line).len() == 0 || trim_spec(line)[0] == '#',
    ensures
        compile_spec(a + seq![line] + b) == compile_spec(a + b),
{
    assert(compile_line(line) is None);
    lemma_compile_concat(a + seq![line], b);
    lemma_compile_concat(a, b);
    assert((a + seq![line]).drop_last() =~= a);
    assert(compile_spec(a + seq![line]) == compile_spec(a));
}

/// The number of "/" in `s`.
pub open spec fn slashes(s: Seq<char>) -> nat
    decreases s.len(),
{
    if s.len() == 0 {
        0
    } else {
        (if s[0] == '/' {
            1nat
        } else {
            0nat
        }) + slashes(s.drop_first())
    }
}

/// `p` has no "**".
pub open spec fn no_globstar(p: Seq<char>) -> bool {
    forall|i: int| 0 <= i < p.len() - 1 ==> !(#[trigger] p[i] == '*' && p[i + 1] == '*')
}

proof fn lemma_no_globstar_skip(p: Seq<char>, k: int)
    requires
        no_globstar(p),
        0 <= k <= p.len(),
    ensures
        no_globstar(p.skip(k)),
{
    assert forall|i: int| 0 <= i < p.skip(k).len() - 1 implies !(#[trigger] p.skip(k)[i] == '*'
        && p.skip(k)[i + 1] == '*') by {
        assert(p.skip(k)[i] == p[k + i]);
        assert(p.skip(k)[i + 1] == p[k + i + 1]);
    }
}

/// Without "**", "*" and "?" never cross "/": a path matched by an anchored pattern has as
/// many "/" as the pattern, i.e. lies exactly as many levels deep.
pub proof fn lemma_glob_keeps_depth(p: Seq<char>, s: Seq<char>)
    requires
        no_globstar(p),
        glob_spec(p, s),
    ensures
        slashes(s) == slashes(p),
    decreases p.len(), s.len() + 1,
{
    if p.len() == 0 {
    } else {
        assert(p.skip(1) =~= p.drop_first());
        lemma_no_globstar_skip(p, 1);
        if p[0] == '*' {
            assert(!(p.len() >= 2 && p[1] == '*'));
            lemma_star_keeps_depth(p.skip(1), s, 0);
            assert(s.skip(0) =~= s);
        } else {
            assert(s.skip(1) =~= s.drop_first());
            lemma_glob_keeps_depth(p.skip(1), s.skip(1));
        }
    }
}

proof fn lemma_star_keeps_depth(q: Seq<char>, s: Seq<char>, i: int)
    requires
        no_globstar(q),
        0 <= i <= s.len(),
        glob_star(q, s, i),
    ensures
        slashes(s.skip(i)) == slashes(q),
    decreases q.len() + 1, s.len() - i,
{
    if i == s.len() {
        lemma_glob_keeps_depth(q, s.skip(i));
    } else if glob_spec(q, s.skip(i)) {
        lemma_glob_keeps_depth(q, s.skip(i));
    } else {
        lemma_star_keeps_depth(q, s, i + 1);
        assert(s.skip(i).drop_first() =~= s.skip(i + 1));
    }
}

/// "**/" may stand for no level at all.
pub proof fn lemma_globstar_zero_levels(q: Seq<char>, s: Seq<char>)
    requires
        glob_spec(q, s),
    ensures
        glob_spec(seq!['*', '*', '/'] + q, s),
{
    let p = seq!['*', '*', '/'] + q;
    assert(p.skip(2) =~= seq!['/'] + q);
    assert(p.skip(2).skip(1) =~= q);
}

proof fn lemma_after_slash_at(q: Seq<char>, s: Seq<char>, i: int, j: int)
    requires
        0 <= i <= j < s.len(),
        s[j] == '/',
        glob_spec(q, s.skip(j + 1)),
    ensures
        glob_after_slash(q, s, i),
    decreases j - i,
{
    if i < j {
        lemma_after_slash_at(q, s, i + 1, j);
    }
}

/// "**/" may stand for any number of levels: whatever directories come before, a path
/// that `q` matches is matched by "**/" followed by `q`.
pub proof fn lemma_globstar_any_levels(q: Seq<char>, dirs: Seq<char>, s: Seq<char>)
    requires
        glob_spec(q, s),
    ensures
        glob_spec(seq!['*', '*', '/'] + q, dirs + seq!['/'] + s),
{
    let p = seq!['*', '*', '/'] + q;
    let t = dirs + seq!['/'] + s;
    assert(p.skip(2) =~= seq!['/'] + q);
    assert(p.skip(2).skip(1) =~= q);
    assert(t.skip(dirs.len() + 1int) =~= s);
    lemma_after_slash_at(q, t, 0, dirs.len() as int);
}

/// The pieces of `a/b` are those of `a` followed by those of `b`.
pub proof fn lemma_split_join(a: Seq<char>, b: Seq<char>)
    ensures
        split_spec(a + seq!['/'] + b, '/') == split_spec(a, '/') + split_spec(b, '/'),
    decreases b.len(),
{
    lemma_split_nonempty(a);
    if b.len() == 0 {
        assert(a + seq!['/'] + b =~= a.push('/'));
        assert((a + seq!['/'] + b).drop_last() =~= a);
        assert(split_spec(b, '/') =~= seq![Seq::<char>::empty()]);
    } else {
        let b1 = b.drop_last();
        lemma_split_join(a, b1);
        lemma_split_nonempty(b1);
        let whole = a + seq!['/'] + b;
        assert(whole.drop_last() =~= a + seq!['/'] + b1);
        assert(whole.last() == b.last());
        let sa = split_spec(a, '/');
        let sb1 = split_spec(b1, '/');
        if b.last() == '/' {
            assert(split_spec(whole, '/') =~= (sa + sb1).push(Seq::<char>::empty()));
            assert(sa + split_spec(b, '/') =~= (sa + sb1).push(Seq::<char>::empty()));
        } else {
            let r = sa + sb1;
            assert(r.last() == sb1.last());
            assert(r.update(r.len() - 1, r.last().push(b.last())) =~= sa + sb1.update(
                sb1.len() - 1,
                sb1.last().push(b.last()),
            ));
        }
    }
}

pub proof fn lemma_split_nonempty(a: Seq<char>)
    ensures
        split_spec(a, '/').len() >= 1,
    decreases a.len(),
{
    if a.len() > 0 {
        lemma_split_nonempty(a.drop_last());
    }
}

/// A rule without "/" that ignores a directory also ignores everything inside it, files
/// and directories alike.
pub proof fn lemma_rule_covers_contents(
    p: (Seq<char>, bool),
    dir: Seq<char>,
    name: Seq<char>,
    is_dir: bool,
)
    requires
        !p.0.contains('/'),
        rule_hits(p, dir, true),
    ensures
        rule_hits(p, dir + seq!['/'] + name, is_dir),
{
    let sd = split_spec(dir, '/');
    let sn = split_spec(name, '/');
    lemma_split_join(dir, name);
    lemma_split_nonempty(name);
    let child = dir + seq!['/'] + name;
    let j = choose|j: int| 0 <= j < sd.len() && #[trigger] seg_spec(sd[j], p.0);
    let segs = rule_segments(split_spec(child, '/'), p.1, is_dir);
    assert(segs[j] == sd[j]);
}

/// When no rule holds "/", ignoring a directory ignores everything inside it.
pub proof fn lemma_ignored_covers_contents(
    pats: Seq<(Seq<char>, bool)>,
    dir: Seq<char>,
    name: Seq<char>,
    is_dir: bool,
)
    requires
        forall|i: int| 0 <= i < pats.len() ==> !(#[trigger] pats[i]).0.contains('/'),
        ignored_spec(dir, pats, true),
    ensures
        ignored_spec(dir + seq!['/'] + name, pats, is_dir),
{
    let i = choose|i: int| 0 <= i < pats.len() && #[trigger] rule_hits(pats[i], dir, true);
    lemma_rule_covers_contents(pats[i], dir, name, is_dir);
}

} // verus!
