//! Character-level string helpers shared by the rest of the crate.
use vstd::prelude::*;

verus! {

/// Unicode `White_Space` (the set that `char::is_whitespace` and `str::trim` use).
pub open spec fn is_ws(c: char) -> bool {
    let u = c as int;
    ||| 0x09 <= u <= 0x0d
    ||| u == 0x20
    ||| u == 0x85
    ||| u == 0xa0
    ||| u == 0x1680
    ||| 0x2000 <= u <= 0x200a
    ||| u == 0x2028
    ||| u == 0x2029
    ||| u == 0x202f
    ||| u == 0x205f
    ||| u == 0x3000
}

/// `s` with leading white space removed.
pub open spec fn trim_start_spec(s: Seq<char>) -> Seq<char>
    decreases s.len(),
{
    if s.len() > 0 && is_ws(s[0]) {
        trim_start_spec(s.drop_first())
    } else {
        s
    }
}

/// `s` with trailing white space removed.
pub open spec fn trim_end_spec(s: Seq<char>) -> Seq<char>
    decreases s.len(),
{
    if s.len() > 0 && is_ws(s.last()) {
        trim_end_spec(s.drop_last())
    } else {
        s
    }
}

/// `s` with white space removed at both ends (what `str::trim` returns).
pub open spec fn trim_spec(s: Seq<char>) -> Seq<char> {
    trim_end_spec(trim_start_spec(s))
}

/// `s` with every trailing `c` removed (what `str::trim_end_matches(c)` returns).
pub open spec fn trim_end_char_spec(s: Seq<char>, c: char) -> Seq<char>
    decreases s.len(),
{
    if s.len() > 0 && s.last() == c {
        trim_end_char_spec(s.drop_last(), c)
    } else {
        s
    }
}

pub open spec fn starts_with_spec(s: Seq<char>, p: Seq<char>) -> bool {
    p.len() <= s.len() && s.take(p.len() as int) == p
}

/// The pieces of `s` between occurrences of `sep` (what `str::split(sep)` yields).
/// There is always at least one piece.
pub open spec fn split_spec(s: Seq<char>, sep: char) -> Seq<Seq<char>>
    decreases s.len(),
{
    if s.len() == 0 {
        seq![Seq::<char>::empty()]
    } else {
        let rest = split_spec(s.drop_last(), sep);
        if s.last() == sep {
            rest.push(Seq::<char>::empty())
        } else {
            rest.update(rest.len() - 1, rest.last().push(s.last()))
        }
    }
}

/// `pieces` joined with `sep` between neighbours.
pub open spec fn join_spec(pieces: Seq<Seq<char>>, sep: Seq<char>) -> Seq<char>
    decreases pieces.len(),
{
    if pieces.len() == 0 {
        Seq::empty()
    } else if pieces.len() == 1 {
        pieces[0]
    } else {
        join_spec(pieces.drop_last(), sep) + sep + pieces.last()
    }
}

/// Every non-overlapping occurrence of `from`, scanned left to right, replaced by `to`
/// (what `str::replace` returns for a non-empty `from`).
pub open spec fn replace_spec(s: Seq<char>, from: Seq<char>, to: Seq<char>) -> Seq<char>
    recommends
        from.len() > 0,
    decreases s.len(),
{
    if s.len() == 0 || from.len() == 0 {
        s
    } else if starts_with_spec(s, from) {
        to + replace_spec(s.skip(from.len() as int), from, to)
    } else {
        seq![s[0]] + replace_spec(s.drop_first(), from, to)
    }
}

/// Every `from` character replaced by `to`.
pub open spec fn replace_char_spec(s: Seq<char>, from: char, to: char) -> Seq<char> {
    s.map_values(|c: char| if c == from { to } else { c })
}

/// Strict lexicographic order by code point (the order of `String`'s `Ord`).
pub open spec fn seq_less(a: Seq<char>, b: Seq<char>) -> bool
    decreases a.len(),
{
    if a.len() == 0 {
        b.len() > 0
    } else if b.len() == 0 {
        false
    } else if a[0] != b[0] {
        (a[0] as int) < (b[0] as int)
    } else {
        seq_less(a.drop_first(), b.drop_first())
    }
}

/// `count` copies of `c`.
pub open spec fn repeat_spec(c: char, count: nat) -> Seq<char> {
    Seq::new(count, |i: int| c)
}

pub proof fn lemma_seq_less_irreflexive(a: Seq<char>)
    ensures
        !seq_less(a, a),
    decreases a.len(),
{
    if a.len() > 0 {
        lemma_seq_less_irreflexive(a.drop_first());
    }
}

pub proof fn lemma_seq_less_asym(a: Seq<char>, b: Seq<char>)
    ensures
        seq_less(a, b) ==> !seq_less(b, a),
    decreases a.len(),
{
    if a.len() > 0 && b.len() > 0 && a[0] == b[0] {
        lemma_seq_less_asym(a.drop_first(), b.drop_first());
    }
}

pub proof fn lemma_seq_less_trans(a: Seq<char>, b: Seq<char>, c: Seq<char>)
    requires
        seq_less(a, b),
        seq_less(b, c),
    ensures
        seq_less(a, c),
    decreases a.len(),
{
    if a.len() > 0 && b.len() > 0 && c.len() > 0 && a[0] == b[0] && b[0] == c[0] {
        lemma_seq_less_trans(a.drop_first(), b.drop_first(), c.drop_first());
    }
}

pub proof fn lemma_seq_less_total(a: Seq<char>, b: Seq<char>)
    ensures
        a != b ==> seq_less(a, b) || seq_less(b, a),
    decreases a.len(),
{
    if a.len() > 0 && b.len() > 0 {
        if a[0] == b[0] {
            lemma_seq_less_total(a.drop_first(), b.drop_first());
            if a.drop_first() == b.drop_first() {
                assert(a =~= seq![a[0]] + a.drop_first());
                assert(b =~= seq![b[0]] + b.drop_first());
            }
        } else {
            assert((a[0] as int) != (b[0] as int));
        }
    } else if a.len() == 0 && b.len() == 0 {
        assert(a =~= b);
    }
}

/// The characters of `s`, in order.
pub fn chars_of(s: &str) -> (v: Vec<char>)
    ensures
        v@ == s@,
{
    let mut v: Vec<char> = Vec::new();
    for c in it: s.chars()
        invariant
            v@ == it.seq().take(it.index() as int),
            it.seq() == s@,
    {
        v.push(c);
    }
    v
}

/// Appends one character (std `String::push`).
#[verifier::external_body]
pub(crate) fn push_char(s: &mut String, c: char)
    ensures
        final(s)@ == old(s)@.push(c),
{
    s.push(c);
}

/// A string holding exactly the characters `v[from..to]`.
pub fn string_of_range(v: &Vec<char>, from: usize, to: usize) -> (s: String)
    requires
        from <= to <= v.len(),
    ensures
        s@ == v@.subrange(from as int, to as int),
{
    let mut s = String::new();
    let mut i = from;
    while i < to
        invariant
            from <= i <= to <= v.len(),
            s@ == v@.subrange(from as int, i as int),
        decreases to - i,
    {
        push_char(&mut s, v[i]);
        i += 1;
        assert(s@ =~= v@.subrange(from as int, i as int));
    }
    s
}

/// A string holding exactly the characters of `v`.
pub fn string_of(v: &Vec<char>) -> (s: String)
    ensures
        s@ == v@,
{
    let s = string_of_range(v, 0, v.len());
    assert(v@.subrange(0, v@.len() as int) =~= v@);
    s
}

/// An owned copy of `s`.
pub fn owned(s: &str) -> (r: String)
    ensures
        r@ == s@,
{
    s.to_owned()
}

/// `s` followed by `t`.
pub fn cat(s: &str, t: &str) -> (r: String)
    ensures
        r@ == s@ + t@,
{
    let mut r = s.to_owned();
    r.append(t);
    r
}

/// Appends `t` to `s`.
pub fn append_str(s: &mut String, t: &str)
    ensures
        final(s)@ == old(s)@ + t@,
{
    s.append(t);
}

/// Whether `c` is white space.
pub fn char_is_ws(c: char) -> (b: bool)
    ensures
        b == is_ws(c),
{
    let u = c as u32;
    (0x09 <= u && u <= 0x0d) || u == 0x20 || u == 0x85 || u == 0xa0 || u == 0x1680 || (0x2000
        <= u && u <= 0x200a) || u == 0x2028 || u == 0x2029 || u == 0x202f || u == 0x205f || u
        == 0x3000
}

pub proof fn lemma_trim_start_skip(s: Seq<char>, i: int)
    requires
        0 <= i <= s.len(),
        forall|k: int| 0 <= k < i ==> is_ws(#[trigger] s[k]),
    ensures
        trim_start_spec(s) == trim_start_spec(s.skip(i)),
    decreases i,
{
    if i > 0 {
        assert(s.drop_first().skip(i - 1) =~= s.skip(i));
        assert forall|k: int| 0 <= k < i - 1 implies is_ws(#[trigger] s.drop_first()[k]) by {
            assert(s.drop_first()[k] == s[k + 1]);
        }
        lemma_trim_start_skip(s.drop_first(), i - 1);
    } else {
        assert(s.skip(0) =~= s);
    }
}

pub proof fn lemma_trim_end_take(s: Seq<char>, j: int)
    requires
        0 <= j <= s.len(),
        forall|k: int| j <= k < s.len() ==> is_ws(#[trigger] s[k]),
    ensures
        trim_end_spec(s) == trim_end_spec(s.take(j)),
    decreases s.len() - j,
{
    if j < s.len() {
        assert(s.drop_last().take(j) =~= s.take(j));
        lemma_trim_end_take(s.drop_last(), j);
    } else {
        assert(s.take(j) =~= s);
    }
}

/// `s` without leading and trailing white space (std `str::trim`).
pub fn trim(s: &str) -> (r: String)
    ensures
        r@ == trim_spec(s@),
{
    let v = chars_of(s);
    let mut i: usize = 0;
    while i < v.len() && char_is_ws(v[i])
        invariant
            0 <= i <= v.len(),
            v@ == s@,
            forall|k: int| 0 <= k < i ==> is_ws(#[trigger] v@[k]),
        decreases v.len() - i,
    {
        i += 1;
    }
    proof {
        lemma_trim_start_skip(v@, i as int);
    }
    let ghost t = v@.skip(i as int);
    assert(i == v.len() || !is_ws(t[0]));
    let mut j: usize = v.len();
    while j > i && char_is_ws(v[j - 1])
        invariant
            i <= j <= v.len(),
            v@ == s@,
            t == v@.skip(i as int),
            forall|k: int| j <= k < v.len() ==> is_ws(#[trigger] v@[k]),
        decreases j,
    {
        j -= 1;
    }
    proof {
        assert forall|k: int| j - i <= k < t.len() implies is_ws(#[trigger] t[k]) by {
            assert(t[k] == v@[k + i]);
        }
        lemma_trim_end_take(t, j - i);
        let u = t.take(j - i);
        assert(u =~= v@.subrange(i as int, j as int));
        if i < j {
            assert(!is_ws(u.last()));
        } else {
            assert(u.len() == 0);
            if i < v.len() {
                assert(!is_ws(t[0]));
            }
        }
        assert(trim_end_spec(u) == u);
        if i == v.len() {
            assert(t.len() == 0);
        }
        assert(trim_start_spec(t) == t);
    }
    string_of_range(&v, i, j)
}

/// Whether `s` begins with `p`.
pub fn starts_with(s: &Vec<char>, p: &Vec<char>) -> (b: bool)
    ensures
        b == starts_with_spec(s@, p@),
{
    if p.len() > s.len() {
        return false;
    }
    let mut i: usize = 0;
    while i < p.len()
        invariant
            p.len() <= s.len(),
            0 <= i <= p.len(),
            forall|k: int| 0 <= k < i ==> s@[k] == p@[k],
        decreases p.len() - i,
    {
        if s[i] != p[i] {
            assert(s@.take(p.len() as int)[i as int] != p@[i as int]);
            return false;
        }
        i += 1;
    }
    assert(s@.take(p.len() as int) =~= p@);
    true
}

/// Whether `s` begins with `p` at position `at`.
pub fn matches_at(s: &Vec<char>, at: usize, p: &Vec<char>) -> (b: bool)
    requires
        at <= s.len(),
    ensures
        b == starts_with_spec(s@.skip(at as int), p@),
{
    if p.len() > s.len() - at {
        return false;
    }
    let mut i: usize = 0;
    while i < p.len()
        invariant
            at <= s.len(),
            p.len() <= s.len() - at,
            0 <= i <= p.len(),
            forall|k: int| 0 <= k < i ==> s@[at + k] == p@[k],
        decreases p.len() - i,
    {
        if s[at + i] != p[i] {
            assert(s@.skip(at as int).take(p.len() as int)[i as int] != p@[i as int]);
            return false;
        }
        i += 1;
    }
    assert(s@.skip(at as int).take(p.len() as int) =~= p@);
    true
}

/// Whether `s` contains the character `c`.
pub fn has_char(s: &Vec<char>, c: char) -> (b: bool)
    ensures
        b == s@.contains(c),
{
    let mut i: usize = 0;
    while i < s.len()
        invariant
            0 <= i <= s.len(),
            forall|k: int| 0 <= k < i ==> s@[k] != c,
        decreases s.len() - i,
    {
        if s[i] == c {
            return true;
        }
        i += 1;
    }
    false
}

/// Strict lexicographic comparison by code point.
pub fn chars_less(a: &Vec<char>, b: &Vec<char>) -> (r: bool)
    ensures
        r == seq_less(a@, b@),
{
    let mut i: usize = 0;
    assert(a@.skip(0) =~= a@);
    assert(b@.skip(0) =~= b@);
    while i < a.len() && i < b.len() && a[i] == b[i]
        invariant
            0 <= i <= a.len(),
            i <= b.len(),
            seq_less(a@, b@) == seq_less(a@.skip(i as int), b@.skip(i as int)),
        decreases a.len() - i,
    {
        proof {
            let x = a@.skip(i as int);
            let y = b@.skip(i as int);
            assert(x.drop_first() =~= a@.skip(i + 1));
            assert(y.drop_first() =~= b@.skip(i + 1));
        }
        i += 1;
    }
    if i == a.len() {
        i < b.len()
    } else if i == b.len() {
        false
    } else {
        a[i] < b[i]
    }
}

/// Strict lexicographic comparison of two strings (the `<` of `String`).
pub fn str_less(a: &str, b: &str) -> (r: bool)
    ensures
        r == seq_less(a@, b@),
{
    let x = chars_of(a);
    let y = chars_of(b);
    chars_less(&x, &y)
}

/// Whether two strings are equal.
pub fn str_eq(a: &str, b: &str) -> (r: bool)
    ensures
        r == (a@ == b@),
{
    let x = chars_of(a);
    let y = chars_of(b);
    if x.len() != y.len() {
        return false;
    }
    let mut i: usize = 0;
    while i < x.len()
        invariant
            x.len() == y.len(),
            x@ == a@,
            y@ == b@,
            0 <= i <= x.len(),
            forall|k: int| 0 <= k < i ==> x@[k] == y@[k],
        decreases x.len() - i,
    {
        if x[i] != y[i] {
            assert(x@[i as int] != y@[i as int]);
            return false;
        }
        i += 1;
    }
    assert(x@ =~= y@);
    true
}

/// The pieces of `s` between occurrences of `sep` (std `str::split`).
pub fn split(s: &Vec<char>, sep: char) -> (parts: Vec<Vec<char>>)
    ensures
        parts@.map_values(|p: Vec<char>| p@) == split_spec(s@, sep),
        parts.len() >= 1,
{
    let mut parts: Vec<Vec<char>> = Vec::new();
    let mut cur: Vec<char> = Vec::new();
    let mut i: usize = 0;
    while i < s.len()
        invariant
            0 <= i <= s.len(),
            parts@.map_values(|p: Vec<char>| p@).push(cur@) == split_spec(s@.take(i as int), sep),
        decreases s.len() - i,
    {
        let ghost before = parts@.map_values(|p: Vec<char>| p@).push(cur@);
        proof {
            assert(s@.take(i + 1).drop_last() =~= s@.take(i as int));
        }
        if s[i] == sep {
            parts.push(cur);
            cur = Vec::new();
            assert(parts@.map_values(|p: Vec<char>| p@).push(cur@) =~= before.push(
                Seq::<char>::empty(),
            ));
        } else {
            cur.push(s[i]);
            assert(parts@.map_values(|p: Vec<char>| p@).push(cur@) =~= before.update(
                before.len() - 1,
                before.last().push(s@[i as int]),
            ));
        }
        i += 1;
    }
    assert(s@.take(s.len() as int) =~= s@);
    parts.push(cur);
    parts
}

/// `s` with every non-overlapping occurrence of `from` replaced by `to` (std `str::replace`).
pub fn replace(s: &str, from: &str, to: &str) -> (r: String)
    requires
        from@.len() > 0,
    ensures
        r@ == replace_spec(s@, from@, to@),
{
    let v = chars_of(s);
    let f = chars_of(from);
    let mut r = String::new();
    let mut i: usize = 0;
    assert(v@.skip(0) =~= v@);
    assert(Seq::<char>::empty() + replace_spec(s@, from@, to@) =~= replace_spec(s@, from@, to@));
    while i < v.len()
        invariant
            0 <= i <= v.len(),
            v@ == s@,
            f@ == from@,
            f@.len() > 0,
            r@ + replace_spec(v@.skip(i as int), f@, to@) == replace_spec(s@, from@, to@),
        decreases v.len() - i,
    {
        let ghost rest = v@.skip(i as int);
        if matches_at(&v, i, &f) {
            let ghost r0 = r@;
            r.append(to);
            proof {
                assert(rest.skip(f@.len() as int) =~= v@.skip(i + f@.len()));
                let x = replace_spec(v@.skip(i + f@.len()), f@, to@);
                assert((r0 + to@) + x =~= r0 + (to@ + x));
            }
            i += f.len();
        } else {
            let ghost r0 = r@;
            push_char(&mut r, v[i]);
            proof {
                assert(rest.drop_first() =~= v@.skip(i + 1));
                let x = replace_spec(v@.skip(i + 1), f@, to@);
                assert(r0.push(v@[i as int]) + x =~= r0 + (seq![rest[0]] + x));
            }
            i += 1;
        }
    }
    assert(v@.skip(v.len() as int) =~= Seq::<char>::empty());
    assert(r@ + Seq::<char>::empty() =~= r@);
    r
}

/// `count` spaces appended to `s`.
pub fn add_spaces(s: &mut String, count: usize)
    ensures
        final(s)@ == old(s)@ + repeat_spec(' ', count as nat),
{
    let ghost start = s@;
    let mut i: usize = 0;
    while i < count
        invariant
            0 <= i <= count,
            s@ == start + repeat_spec(' ', i as nat),
        decreases count - i,
    {
        push_char(s, ' ');
        i += 1;
        assert(s@ =~= start + repeat_spec(' ', i as nat));
    }
}

/// The decimal digit for `n < 10`.
pub open spec fn digit_char(n: int) -> char {
    (n + 48) as char
}

/// Decimal spelling of `n`, without leading zeros.
pub open spec fn digits_spec(n: nat) -> Seq<char>
    decreases n,
{
    if n < 10 {
        seq![digit_char(n as int)]
    } else {
        digits_spec(n / 10) + seq![digit_char((n % 10) as int)]
    }
}

/// Decimal spelling of `n` (what `Display` gives for integers): a "-" before negative values.
pub open spec fn dec_spec(n: int) -> Seq<char> {
    if n < 0 {
        seq!['-'] + digits_spec((-n) as nat)
    } else {
        digits_spec(n as nat)
    }
}

/// Decimal spelling of an unsigned number.
pub fn dec_u64(n: u64) -> (s: String)
    ensures
        s@ == digits_spec(n as nat),
    decreases n,
{
    if n < 10 {
        let mut s = String::new();
        push_char(&mut s, ((n as u8) + 48) as char);
        assert(s@ =~= seq![digit_char(n as int)]);
        s
    } else {
        let mut s = dec_u64(n / 10);
        push_char(&mut s, (((n % 10) as u8) + 48) as char);
        s
    }
}

/// Decimal spelling of a signed number.
pub fn dec_i64(n: i64) -> (s: String)
    ensures
        s@ == dec_spec(n as int),
{
    if n < 0 {
        let m = (-(n as i128)) as u64;
        let d = dec_u64(m);
        let mut s = String::new();
        push_char(&mut s, '-');
        s.append(d.as_str());
        assert(s@ =~= seq!['-'] + digits_spec((-n) as nat));
        s
    } else {
        dec_u64(n as u64)
    }
}

/// `pieces` joined with `sep`.
pub fn join(pieces: &Vec<String>, sep: &str) -> (r: String)
    ensures
        r@ == join_spec(pieces@.map_values(|s: String| s@), sep@),
{
    let ghost vs = pieces@.map_values(|s: String| s@);
    let mut r = String::new();
    let mut i: usize = 0;
    while i < pieces.len()
        invariant
            0 <= i <= pieces.len(),
            vs == pieces@.map_values(|s: String| s@),
            r@ == join_spec(vs.take(i as int), sep@),
        decreases pieces.len() - i,
    {
        assert(vs.take(i + 1).drop_last() =~= vs.take(i as int));
        if i > 0 {
            append_str(&mut r, sep);
        } else {
            assert(vs.take(1).len() == 1);
        }
        append_str(&mut r, pieces[i].as_str());
        proof {
            if i == 0 {
                assert(r@ =~= vs.take(1)[0]);
            }
        }
        i += 1;
    }
    assert(vs.take(pieces.len() as int) =~= vs);
    r
}

/// The string `s` in lower case (std `str::to_lowercase`).
pub uninterp spec fn lowercase_spec(s: Seq<char>) -> Seq<char>;

/// `str::to_lowercase`: Unicode lower-casing.
#[verifier::external_body]
pub(crate) fn to_lowercase(s: &str) -> (r: String)
    ensures
        r@ == lowercase_spec(s@),
{
    s.to_lowercase()
}

/// The `Debug` spelling of a string (quoted, with escapes).
pub uninterp spec fn debug_str(s: Seq<char>) -> Seq<char>;

/// `format!("{:?}", s)` for a string.
#[verifier::external_body]
pub(crate) fn debug_quoted(s: &str) -> (r: String)
    ensures
        r@ == debug_str(s@),
{
    format!("{:?}", s)
}

/// `s` with every `from` character replaced by `to` (std `str::replace` with characters).
pub fn replace_char(s: &str, from: char, to: char) -> (r: String)
    ensures
        r@ == replace_char_spec(s@, from, to),
{
    let v = chars_of(s);
    let mut r = String::new();
    let mut i: usize = 0;
    while i < v.len()
        invariant
            0 <= i <= v.len(),
            r@ == replace_char_spec(v@.take(i as int), from, to),
        decreases v.len() - i,
    {
        push_char(&mut r, if v[i] == from { to } else { v[i] });
        assert(r@ =~= replace_char_spec(v@.take(i + 1), from, to));
        i += 1;
    }
    assert(v@.take(v.len() as int) =~= v@);
    r
}


/// An ASCII decimal digit.
pub open spec fn is_digit(c: char) -> bool {
    '0' <= c <= '9'
}

/// Every character of `s` is a decimal digit.
pub open spec fn all_digits(s: Seq<char>) -> bool {
    forall|i: int| 0 <= i < s.len() ==> is_digit(#[trigger] s[i])
}

/// The number that the decimal digits `s` spell.
pub open spec fn digits_value(s: Seq<char>) -> nat
    decreases s.len(),
{
    if s.len() == 0 {
        0
    } else {
        10 * digits_value(s.drop_last()) + ((s.last() as int) - 48) as nat
    }
}

/// What `str::parse` reads as an integer: an optional sign ("-" only where `signed`), then
/// one or more decimal digits.
pub open spec fn parse_int_spec(s: Seq<char>, signed: bool) -> Option<int> {
    if s.len() > 0 && (s[0] == '+' || (signed && s[0] == '-')) {
        let d = s.drop_first();
        if d.len() > 0 && all_digits(d) {
            Some(
                if s[0] == '-' {
                    -(digits_value(d) as int)
                } else {
                    digits_value(d) as int
                },
            )
        } else {
            None
        }
    } else if s.len() > 0 && all_digits(s) {
        Some(digits_value(s) as int)
    } else {
        None
    }
}

/// The value of the digits of `v` from `from` on, capped at 2^64.
fn digits_capped(v: &Vec<char>, from: usize) -> (r: Option<u128>)
    requires
        from <= v.len(),
    ensures
        match r {
            Some(n) => all_digits(v@.skip(from as int)) && n == (if digits_value(v@.skip(
                from as int,
            )) < 0x1_0000_0000_0000_0000 {
                digits_value(v@.skip(from as int)) as int
            } else {
                0x1_0000_0000_0000_0000int
            }),
            None => !all_digits(v@.skip(from as int)),
        },
{
    let cap: u128 = 0x1_0000_0000_0000_0000;
    let mut acc: u128 = 0;
    let mut i: usize = from;
    let ghost t = v@.skip(from as int);
    assert(t.take(0) =~= Seq::<char>::empty());
    while i < v.len()
        invariant
            from <= i <= v.len(),
            t == v@.skip(from as int),
            all_digits(t.take(i - from)),
            acc == (if digits_value(t.take(i - from)) < cap {
                digits_value(t.take(i - from)) as int
            } else {
                cap as int
            }),
            cap == 0x1_0000_0000_0000_0000u128,
        decreases v.len() - i,
    {
        let c = v[i];
        assert(t[i - from] == c);
        if !('0' <= c && c <= '9') {
            assert(!is_digit(t[i - from]));
            return None;
        }
        let d = (c as u32 - 48) as u128;
        assert(t.take(i - from + 1).drop_last() =~= t.take(i - from));
        assert(t.take(i - from + 1).last() == c);
        let next = acc * 10 + d;
        acc = if next < cap {
            next
        } else {
            cap
        };
        assert forall|k: int| 0 <= k < t.take(i - from + 1).len() implies is_digit(
            #[trigger] t.take(i - from + 1)[k],
        ) by {
            if k < i - from {
                assert(t.take(i - from + 1)[k] == t.take(i - from)[k]);
            }
        }
        i += 1;
    }
    assert(t.take(v.len() - from) =~= t);
    Some(acc)
}

/// `str::parse::<i64>`.
pub fn parse_i64(s: &str) -> (r: Option<i64>)
    ensures
        r == (match parse_int_spec(s@, true) {
            Some(n) => if i64::MIN <= n <= i64::MAX {
                Some(n as i64)
            } else {
                None
            },
            None => None,
        }),
{
    let v = chars_of(s);
    if v.len() == 0 {
        return None;
    }
    let neg = v[0] == '-';
    let signed = v[0] == '-' || v[0] == '+';
    let from: usize = if signed {
        1
    } else {
        0
    };
    assert(v@.skip(1) =~= v@.drop_first());
    assert(v@.skip(0) =~= v@);
    if signed && v.len() == 1 {
        return None;
    }
    match digits_capped(&v, from) {
        None => None,
        Some(m) => {
            if neg {
                if m <= 0x8000_0000_0000_0000u128 {
                    Some((0i128 - m as i128) as i64)
                } else {
                    None
                }
            } else {
                if m <= 0x7fff_ffff_ffff_ffffu128 {
                    Some(m as i64)
                } else {
                    None
                }
            }
        },
    }
}

/// `str::parse::<u64>`.
pub fn parse_u64(s: &str) -> (r: Option<u64>)
    ensures
        r == (match parse_int_spec(s@, false) {
            Some(n) => if n <= u64::MAX {
                Some(n as u64)
            } else {
                None
            },
            None => None,
        }),
{
    let v = chars_of(s);
    if v.len() == 0 {
        return None;
    }
    let signed = v[0] == '+';
    let from: usize = if signed {
        1
    } else {
        0
    };
    assert(v@.skip(1) =~= v@.drop_first());
    assert(v@.skip(0) =~= v@);
    if signed && v.len() == 1 {
        return None;
    }
    if v[0] == '-' {
        assert(!is_digit(v@[0]));
        return None;
    }
    match digits_capped(&v, from) {
        None => None,
        Some(m) => if m <= 0xffff_ffff_ffff_ffffu128 {
            Some(m as u64)
        } else {
            None
        },
    }
}

/// A line without the carriage return before its newline.
pub open spec fn strip_cr(p: Seq<char>) -> Seq<char> {
    if p.len() > 0 && p.last() == '\r' {
        p.drop_last()
    } else {
        p
    }
}

/// The lines of `s` (what `str::lines` yields): split at "\n", a "\r" before a "\n" dropped,
/// and no line after a final "\n".
pub open spec fn lines_spec(s: Seq<char>) -> Seq<Seq<char>> {
    let parts = split_spec(s, '\n');
    let body = parts.drop_last().map_values(|p: Seq<char>| strip_cr(p));
    if parts.last().len() == 0 {
        body
    } else {
        body.push(parts.last())
    }
}

/// The lines of `s`.
pub fn lines(s: &str) -> (r: Vec<String>)
    ensures
        r@.map_values(|l: String| l@) == lines_spec(s@),
{
    let v = chars_of(s);
    let parts = split(&v, '\n');
    let ghost ps = parts@.map_values(|q: Vec<char>| q@);
    let n = parts.len();
    let mut r: Vec<String> = Vec::new();
    let mut i: usize = 0;
    while i + 1 < n
        invariant
            n == parts.len(),
            n >= 1,
            0 <= i <= n - 1,
            ps == parts@.map_values(|q: Vec<char>| q@),
            r@.map_values(|l: String| l@) == ps.drop_last().take(i as int).map_values(
                |p: Seq<char>| strip_cr(p),
            ),
        decreases n - 1 - i,
    {
        let q = &parts[i];
        let end = if q.len() > 0 && q[q.len() - 1] == '\r' {
            q.len() - 1
        } else {
            q.len()
        };
        let line = string_of_range(q, 0, end);
        assert(ps[i as int] == q@);
        assert(line@ =~= strip_cr(ps[i as int]));
        let ghost before = r@;
        let ghost lv = line@;
        r.push(line);
        assert(r@.map_values(|l: String| l@) =~= before.map_values(|l: String| l@).push(lv));
        assert(ps.drop_last().take(i + 1) =~= ps.drop_last().take(i as int).push(ps[i as int]));
        assert(r@.map_values(|l: String| l@) =~= ps.drop_last().take(i + 1).map_values(
            |p: Seq<char>| strip_cr(p),
        ));
        i += 1;
    }
    assert(ps.drop_last().take(n - 1) =~= ps.drop_last());
    let last = &parts[n - 1];
    assert(ps.last() == last@);
    if last.len() > 0 {
        let ghost before = r@;
        r.push(string_of(last));
        assert(r@.map_values(|l: String| l@) =~= before.map_values(|l: String| l@).push(last@));
    }
    r
}


/// `a` comes no later than `b`.
pub proof fn lemma_seq_le_trans(a: Seq<char>, b: Seq<char>, c: Seq<char>)
    requires
        !seq_less(b, a),
        !seq_less(c, b),
    ensures
        !seq_less(c, a),
{
    lemma_seq_less_total(a, b);
    lemma_seq_less_total(b, c);
    if seq_less(c, a) {
        if seq_less(a, b) {
            lemma_seq_less_trans(c, a, b);
            lemma_seq_less_asym(c, b);
        } else {
            lemma_seq_less_asym(c, a);
        }
    }
}

/// Strings in ascending order (equal neighbours allowed).
pub open spec fn strings_sorted(s: Seq<String>) -> bool {
    forall|i: int, j: int| 0 <= i < j < s.len() ==> !seq_less(#[trigger] s[j]@, #[trigger] s[i]@)
}

fn merge_sorted(a: Vec<String>, b: Vec<String>) -> (r: Vec<String>)
    requires
        strings_sorted(a@),
        strings_sorted(b@),
    ensures
        strings_sorted(r@),
        r@.to_multiset() == a@.to_multiset().add(b@.to_multiset()),
{
    broadcast use vstd::seq_lib::group_to_multiset_ensures;
    broadcast use vstd::multiset::group_multiset_axioms;

    let mut r: Vec<String> = Vec::new();
    let mut i: usize = 0;
    let mut j: usize = 0;
    assert(a@.take(0) =~= Seq::<String>::empty());
    assert(b@.take(0) =~= Seq::<String>::empty());
    assert(r@.to_multiset() =~= a@.take(0).to_multiset().add(b@.take(0).to_multiset()));
    while i < a.len() || j < b.len()
        invariant
            i <= a.len(),
            j <= b.len(),
            strings_sorted(a@),
            strings_sorted(b@),
            strings_sorted(r@),
            r@.to_multiset() == a@.take(i as int).to_multiset().add(b@.take(j as int).to_multiset()),
            forall|k: int| 0 <= k < r.len() ==> (i < a.len() ==> !seq_less(a@[i as int]@, #[trigger] r@[k]@)),
            forall|k: int| 0 <= k < r.len() ==> (j < b.len() ==> !seq_less(b@[j as int]@, #[trigger] r@[k]@)),
        decreases a.len() - i + b.len() - j,
    {
        let take_a = if i < a.len() && j < b.len() {
            !str_less(b[j].as_str(), a[i].as_str())
        } else {
            i < a.len()
        };
        let ghost r0 = r@;
        if take_a {
            let x = a[i].clone();
            assert(x == a@[i as int]);
            r.push(x);
            proof {
                assert(r@ == r0.push(x));
                assert(a@.take(i + 1) =~= a@.take(i as int).push(x));
                vstd::seq_lib::to_multiset_build(r0, x);
                vstd::seq_lib::to_multiset_build(a@.take(i as int), x);
                let ma = a@.take(i as int).to_multiset();
                let mb = b@.take(j as int).to_multiset();
                assert(ma.insert(x).add(mb) =~= ma.add(mb).insert(x));
                assert(r@.to_multiset() =~= a@.take(i + 1).to_multiset().add(
                    b@.take(j as int).to_multiset(),
                ));
                assert forall|p: int, q: int| 0 <= p < q < r@.len() implies !seq_less(
                    #[trigger] r@[q]@,
                    #[trigger] r@[p]@,
                ) by {
                    if q == r@.len() - 1 {
                        assert(r@[p] == r0[p]);
                    } else {
                        assert(r@[p] == r0[p] && r@[q] == r0[q]);
                    }
                }
                assert forall|k: int| 0 <= k < r@.len() && i + 1 < a.len() implies !seq_less(
                    a@[i + 1]@,
                    #[trigger] r@[k]@,
                ) by {
                    if i + 1 < a.len() {
                        assert(!seq_less(a@[i + 1]@, a@[i as int]@));
                        if k < r0.len() {
                            assert(r@[k] == r0[k]);
                            lemma_seq_le_trans(r0[k]@, a@[i as int]@, a@[i + 1]@);
                        }
                    }
                }
                assert forall|k: int| 0 <= k < r@.len() && j < b.len() implies !seq_less(
                    b@[j as int]@,
                    #[trigger] r@[k]@,
                ) by {
                    if j < b.len() {
                        assert(!seq_less(b@[j as int]@, a@[i as int]@));
                        if k < r0.len() {
                            assert(r@[k] == r0[k]);
                            lemma_seq_le_trans(r0[k]@, a@[i as int]@, b@[j as int]@);
                        }
                    }
                }
            }
            i += 1;
        } else {
            let x = b[j].clone();
            assert(x == b@[j as int]);
            proof {
                if i < a.len() {
                    lemma_seq_less_asym(b@[j as int]@, a@[i as int]@);
                }
            }
            r.push(x);
            proof {
                assert(r@ == r0.push(x));
                assert(b@.take(j + 1) =~= b@.take(j as int).push(x));
                vstd::seq_lib::to_multiset_build(r0, x);
                vstd::seq_lib::to_multiset_build(b@.take(j as int), x);
                let ma = a@.take(i as int).to_multiset();
                let mb = b@.take(j as int).to_multiset();
                assert(ma.add(mb.insert(x)) =~= ma.add(mb).insert(x));
                assert(r@.to_multiset() =~= a@.take(i as int).to_multiset().add(
                    b@.take(j + 1).to_multiset(),
                ));
                assert forall|p: int, q: int| 0 <= p < q < r@.len() implies !seq_less(
                    #[trigger] r@[q]@,
                    #[trigger] r@[p]@,
                ) by {
                    if q == r@.len() - 1 {
                        assert(r@[p] == r0[p]);
                    } else {
                        assert(r@[p] == r0[p] && r@[q] == r0[q]);
                    }
                }
                assert forall|k: int| 0 <= k < r@.len() && j + 1 < b.len() implies !seq_less(
                    b@[j + 1]@,
                    #[trigger] r@[k]@,
                ) by {
                    if j + 1 < b.len() {
                        assert(!seq_less(b@[j + 1]@, b@[j as int]@));
                        if k < r0.len() {
                            assert(r@[k] == r0[k]);
                            lemma_seq_le_trans(r0[k]@, b@[j as int]@, b@[j + 1]@);
                        }
                    }
                }
                assert forall|k: int| 0 <= k < r@.len() && i < a.len() implies !seq_less(
                    a@[i as int]@,
                    #[trigger] r@[k]@,
                ) by {
                    if i < a.len() {
                        assert(!seq_less(a@[i as int]@, b@[j as int]@));
                        if k < r0.len() {
                            assert(r@[k] == r0[k]);
                            lemma_seq_le_trans(r0[k]@, b@[j as int]@, a@[i as int]@);
                        }
                    }
                }
            }
            j += 1;
        }
    }
    assert(a@.take(a.len() as int) =~= a@);
    assert(b@.take(b.len() as int) =~= b@);
    r
}

/// Sorts strings into ascending order (`slice::sort` on strings).
pub fn sort_strings(v: Vec<String>) -> (r: Vec<String>)
    ensures
        strings_sorted(r@),
        r@.to_multiset() == v@.to_multiset(),
    decreases v.len(),
{
    if v.len() <= 1 {
        return v;
    }
    let mut left = v;
    let ghost whole = left@;
    let mid = left.len() / 2;
    let right = left.split_off(mid);
    proof {
        assert(whole =~= left@ + right@);
        vstd::seq_lib::lemma_multiset_commutative(left@, right@);
    }
    let l = sort_strings(left);
    let r = sort_strings(right);
    merge_sorted(l, r)
}


/// Text that neither starts nor ends with white space is its own trim.
pub proof fn lemma_trim_plain(s: Seq<char>)
    requires
        s.len() > 0,
        !is_ws(s[0]),
        !is_ws(s.last()),
    ensures
        trim_spec(s) == s,
{
    assert(trim_start_spec(s) == s);
    assert(trim_end_spec(s) == s);
}

/// The digits of a number are digits and spell it back.
pub proof fn lemma_digits_roundtrip(n: nat)
    ensures
        all_digits(digits_spec(n)),
        digits_value(digits_spec(n)) == n,
        digits_spec(n).len() > 0,
    decreases n,
{
    let x = (n % 10) as int;
    assert((digit_char(x) as int) == x + 48);
    if n >= 10 {
        lemma_digits_roundtrip(n / 10);
        let d = digits_spec(n);
        assert(d.drop_last() =~= digits_spec(n / 10));
        assert(d.last() == digit_char(x));
        assert(digits_value(d) == 10 * digits_value(d.drop_last()) + x);
        assert forall|i: int| 0 <= i < d.len() implies is_digit(#[trigger] d[i]) by {
            if i < d.len() - 1 {
                assert(d[i] == digits_spec(n / 10)[i]);
            }
        }
    } else {
        let d = digits_spec(n);
        assert(d.drop_last() =~= Seq::<char>::empty());
        assert(digits_value(d.drop_last()) == 0);
        assert(d.last() == digit_char(x));
    }
}

/// Reading back the decimal spelling of a number gives the number.
pub proof fn lemma_dec_roundtrip(n: int)
    ensures
        parse_int_spec(dec_spec(n), true) == Some(n),
        n >= 0 ==> parse_int_spec(dec_spec(n), false) == Some(n),
        trim_spec(dec_spec(n)) == dec_spec(n),
{
    if n < 0 {
        let m = (-n) as nat;
        lemma_digits_roundtrip(m);
        let s = dec_spec(n);
        assert(s.drop_first() =~= digits_spec(m));
        assert(s.last() == digits_spec(m).last());
        assert(is_digit(digits_spec(m)[digits_spec(m).len() - 1]));
        lemma_trim_plain(s);
    } else {
        lemma_digits_roundtrip(n as nat);
        let s = dec_spec(n);
        assert(is_digit(s[0]));
        assert(is_digit(s[s.len() - 1]));
        lemma_trim_plain(s);
    }
}

} // verus!
