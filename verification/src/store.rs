//! The repository layout, versions and their on-disk text, the index, and relative paths.
//!
//!   .snap/HEAD                    the current version id (12 hex digits, or empty)
//!   .snap/versions/<id>.json      a version {parents, tree, message, time, seq}
//!   .snap/seq                     a counter (orders versions saved in the same second)
//!   .snap/objects/<2>/<38>        zlib-compressed contents, named by sha1(contents)
use vstd::prelude::*;
use crate::digest::{hex_spec, sha1_digest, sha1_hex};
use crate::error::SnapError;
use crate::paths::{join_rel, join_rel_spec, path_push, path_push_all, push_path};
use crate::text::{
    append_str, cat, chars_of, dec_i64, dec_spec, join, join_spec, lemma_seq_less_asym,
    lemma_seq_less_total, lemma_seq_less_trans, owned, push_char, seq_less, starts_with,
    starts_with_spec, str_less, string_of_range, trim, trim_spec,
};
use crate::tree::{lemma_text_insert, Tree};
use crate::json::{as_i64, get, json_parse, parse_json, value_get, value_i64, value_str, JsonValue};
use crate::paths::{is_self_path, is_self_path_spec};
use crate::text::{is_ws, lemma_dec_roundtrip, lemma_trim_plain, lines, lines_spec, parse_i64,
    parse_int_spec, replace_char, replace_char_spec, trim_end_spec, trim_start_spec};
use crate::ignore::{compile, compile_spec, default_ignore, default_lines, Pattern};
use crate::digest::hex_digit;
use vstd::utf8::encode_utf8;

verus! {

// ------------------------------------------------------------------ JSON text

/// The JSON escape of one character: `"`, `\` and the usual control characters get a short
/// escape, other control characters `\u00XX`, and every other character (non-ASCII too) is kept.
pub open spec fn json_char(c: char) -> Seq<char> {
    if c == '"' {
        seq!['\\', '"']
    } else if c == '\\' {
        seq!['\\', '\\']
    } else if c == '\n' {
        seq!['\\', 'n']
    } else if c == '\r' {
        seq!['\\', 'r']
    } else if c == '\t' {
        seq!['\\', 't']
    } else if c == '\u{8}' {
        seq!['\\', 'b']
    } else if c == '\u{c}' {
        seq!['\\', 'f']
    } else if (c as int) < 0x20 {
        seq!['\\', 'u', '0', '0', hex_digit(c as int / 16), hex_digit(c as int % 16)]
    } else {
        seq![c]
    }
}

/// The escaped characters of `s`, without quotes.
pub open spec fn json_body(s: Seq<char>) -> Seq<char>
    decreases s.len(),
{
    if s.len() == 0 {
        Seq::empty()
    } else {
        json_body(s.drop_last()) + json_char(s.last())
    }
}

/// The JSON string literal of `s`.
pub open spec fn json_spec(s: Seq<char>) -> Seq<char> {
    seq!['"'] + json_body(s) + seq!['"']
}

/// Every character of an escape is printable (U+0020 or above).
proof fn lemma_json_char_printable(c: char)
    ensures
        forall|k: int| 0 <= k < json_char(c).len() ==> (#[trigger] json_char(c)[k] as int) >= 0x20,
{
    if (c as int) < 0x20 && c != '\n' && c != '\r' && c != '\t' && c != '\u{8}' && c != '\u{c}' {
        let hi = c as int / 16;
        let lo = c as int % 16;
        assert(0 <= hi < 2);
        assert((hi + 48) as char as int == hi + 48);
        assert(0 <= lo < 16);
        if lo < 10 {
            assert((lo + 48) as char as int == lo + 48);
        } else {
            assert((lo + 87) as char as int == lo + 87);
        }
    }
}

proof fn lemma_json_body_laws(s: Seq<char>)
    ensures
        forall|k: int| 0 <= k < json_body(s).len() ==> (#[trigger] json_body(s)[k] as int) >= 0x20,
        (forall|k: int|
            0 <= k < s.len() ==> #[trigger] s[k] != '"' && s[k] != '\\' && (s[k] as int) >= 0x20)
            ==> json_body(s) == s,
    decreases s.len(),
{
    if s.len() > 0 {
        let p = s.drop_last();
        lemma_json_body_laws(p);
        lemma_json_char_printable(s.last());
        let b = json_body(s);
        assert(b == json_body(p) + json_char(s.last()));
        assert forall|k: int| 0 <= k < b.len() implies (#[trigger] b[k] as int) >= 0x20 by {
            if k < json_body(p).len() {
                assert(b[k] == json_body(p)[k]);
            } else {
                assert(b[k] == json_char(s.last())[k - json_body(p).len()]);
            }
        }
        if forall|k: int|
            0 <= k < s.len() ==> #[trigger] s[k] != '"' && s[k] != '\\' && (s[k] as int) >= 0x20 {
            assert forall|k: int| 0 <= k < p.len() implies #[trigger] p[k] != '"' && p[k] != '\\'
                && (p[k] as int) >= 0x20 by {
                assert(p[k] == s[k]);
            }
            assert(s[s.len() - 1] == s.last());
            assert(json_char(s.last()) == seq![s.last()]);
            assert(b =~= s);
        }
    }
}

/// The shape of a JSON string literal: it starts and ends with a quote, holds no control
/// character (below U+0020), and is the string itself between quotes when the string has no
/// quote, backslash or control character (non-ASCII is kept as it is).
pub proof fn lemma_json_string_shape(s: Seq<char>)
    ensures
        json_spec(s).len() >= 2,
        json_spec(s)[0] == '"',
        json_spec(s).last() == '"',
        forall|k: int| 0 <= k < json_spec(s).len() ==> (#[trigger] json_spec(s)[k] as int) >= 0x20,
        (forall|k: int|
            0 <= k < s.len() ==> #[trigger] s[k] != '"' && s[k] != '\\' && (s[k] as int) >= 0x20)
            ==> json_spec(s) == seq!['"'] + s + seq!['"'],
{
    lemma_json_body_laws(s);
    let j = json_spec(s);
    let b = json_body(s);
    assert forall|k: int| 0 <= k < j.len() implies (#[trigger] j[k] as int) >= 0x20 by {
        if k == 0 || k == j.len() - 1 {
        } else {
            assert(j[k] == b[k - 1]);
        }
    }
}

fn push_json_char(out: &mut String, c: char)
    ensures
        final(out)@ == old(out)@ + json_char(c),
{
    let ghost start = out@;
    if c == '"' {
        push_char(out, '\\');
        push_char(out, '"');
    } else if c == '\\' {
        push_char(out, '\\');
        push_char(out, '\\');
    } else if c == '\n' {
        push_char(out, '\\');
        push_char(out, 'n');
    } else if c == '\r' {
        push_char(out, '\\');
        push_char(out, 'r');
    } else if c == '\t' {
        push_char(out, '\\');
        push_char(out, 't');
    } else if c == '\u{8}' {
        push_char(out, '\\');
        push_char(out, 'b');
    } else if c == '\u{c}' {
        push_char(out, '\\');
        push_char(out, 'f');
    } else if (c as u32) < 0x20 {
        let u = c as u32;
        push_char(out, '\\');
        push_char(out, 'u');
        push_char(out, '0');
        push_char(out, '0');
        let hi = (u / 16) as u8;
        let lo = (u % 16) as u8;
        push_char(out, if hi < 10 { (hi + 48) as char } else { (hi + 87) as char });
        push_char(out, if lo < 10 { (lo + 48) as char } else { (lo + 87) as char });
    } else {
        push_char(out, c);
    }
    assert(out@ =~= start + json_char(c));
}

/// A JSON string literal for `s`: `"` and `\` escaped, control characters as `\n` `\t` etc.
/// or `\u00XX`, everything else kept as it is.
pub fn json_string(s: &str) -> (r: String)
    ensures
        r@ == json_spec(s@),
{
    let v = chars_of(s);
    let mut out = String::new();
    push_char(&mut out, '"');
    let mut i: usize = 0;
    while i < v.len()
        invariant
            0 <= i <= v.len(),
            out@ == seq!['"'] + json_body(v@.take(i as int)),
        decreases v.len() - i,
    {
        assert(v@.take(i + 1).drop_last() =~= v@.take(i as int));
        push_json_char(&mut out, v[i]);
        assert(out@ =~= seq!['"'] + json_body(v@.take(i + 1)));
        i += 1;
    }
    assert(v@.take(v.len() as int) =~= v@);
    push_char(&mut out, '"');
    out
}

// ------------------------------------------------------------------ versions

/// A version record.
#[derive(Clone, Debug)]
pub struct Version {
    pub id: String,
    pub parents: Vec<String>,
    pub tree: Tree,
    pub message: String,
    pub time: i64,
    pub seq: i64,
}

/// The strings of `v`, as character sequences.
pub open spec fn strs(v: Seq<String>) -> Seq<Seq<char>> {
    v.map_values(|s: String| s@)
}

/// `"key": "hash"` for one tree entry.
pub open spec fn json_pair(e: (Seq<char>, Seq<char>)) -> Seq<char> {
    json_spec(e.0) + ": "@ + json_spec(e.1)
}

/// The text a version id is the hash of: the one-line JSON object with the keys `message`,
/// `parents` and `tree` in that (sorted) order, ", " and ": " as separators, the tree's keys
/// sorted too, and non-ASCII kept as it is.
pub open spec fn id_payload_spec(
    parents: Seq<Seq<char>>,
    tree: Seq<(Seq<char>, Seq<char>)>,
    message: Seq<char>,
) -> Seq<char> {
    "{\"message\": "@ + json_spec(message) + ", \"parents\": ["@ + join_spec(
        parents.map_values(|p: Seq<char>| json_spec(p)),
        ", "@,
    ) + "], \"tree\": {"@ + join_spec(
        tree.map_values(|e: (Seq<char>, Seq<char>)| json_pair(e)),
        ", "@,
    ) + "}}"@
}

proof fn lemma_join_push(xs: Seq<Seq<char>>, x: Seq<char>, sep: Seq<char>)
    requires
        xs.len() > 0,
    ensures
        join_spec(xs.push(x), sep) == join_spec(xs, sep) + sep + x,
{
    assert(xs.push(x).drop_last() =~= xs);
}

/// The tree of the id payload lists its entries separated by ", ": adding an entry after
/// a non-empty tree puts ", " and that entry's `"key": "hash"` right before the closing
/// "}}"; after an empty tree, the entry alone.
pub proof fn lemma_payload_tree_entries(
    parents: Seq<Seq<char>>,
    t: Seq<(Seq<char>, Seq<char>)>,
    e: (Seq<char>, Seq<char>),
    message: Seq<char>,
)
    ensures
        ({
            let a = id_payload_spec(parents, t, message);
            let b = id_payload_spec(parents, t.push(e), message);
            &&& a.len() >= 2
            &&& a.skip(a.len() - 2) == "}}"@
            &&& t.len() > 0 ==> b == a.take(a.len() - 2) + ", "@ + json_pair(e) + "}}"@
            &&& t.len() == 0 ==> b == a.take(a.len() - 2) + json_pair(e) + "}}"@
        }),
{
    reveal_strlit("}}");
    reveal_strlit(", ");
    let a = id_payload_spec(parents, t, message);
    let head = "{\"message\": "@ + json_spec(message) + ", \"parents\": ["@ + join_spec(
        parents.map_values(|p: Seq<char>| json_spec(p)),
        ", "@,
    ) + "], \"tree\": {"@;
    let ja = join_spec(t.map_values(|x: (Seq<char>, Seq<char>)| json_pair(x)), ", "@);
    assert(a =~= head + ja + "}}"@);
    assert(a.skip(a.len() - 2) =~= "}}"@);
    assert(a.take(a.len() - 2) =~= head + ja);
    assert(t.push(e).map_values(|x: (Seq<char>, Seq<char>)| json_pair(x)) =~= t.map_values(
        |x: (Seq<char>, Seq<char>)| json_pair(x),
    ).push(json_pair(e)));
    if t.len() > 0 {
        lemma_join_push(t.map_values(|x: (Seq<char>, Seq<char>)| json_pair(x)), json_pair(e), ", "@);
    } else {
        assert(t.map_values(|x: (Seq<char>, Seq<char>)| json_pair(x)) =~= Seq::<Seq<char>>::empty());
        assert(ja =~= Seq::<char>::empty());
        assert(Seq::<Seq<char>>::empty().push(json_pair(e)) =~= seq![json_pair(e)]);
    }
}

/// The parents of the id payload are listed separated by ", " too: adding a parent after
/// a non-empty list puts ", " and its JSON string right before the closing "]".
pub proof fn lemma_payload_parent_entries(
    parents: Seq<Seq<char>>,
    x: Seq<char>,
    t: Seq<(Seq<char>, Seq<char>)>,
    message: Seq<char>,
)
    requires
        parents.len() > 0,
    ensures
        ({
            let tail = "], \"tree\": {"@ + join_spec(
                t.map_values(|e: (Seq<char>, Seq<char>)| json_pair(e)),
                ", "@,
            ) + "}}"@;
            let a = id_payload_spec(parents, t, message);
            &&& a.len() >= tail.len()
            &&& a.skip(a.len() - tail.len()) == tail
            &&& id_payload_spec(parents.push(x), t, message) == a.take(a.len() - tail.len())
                + ", "@ + json_spec(x) + tail
        }),
{
    let tail = "], \"tree\": {"@ + join_spec(
        t.map_values(|e: (Seq<char>, Seq<char>)| json_pair(e)),
        ", "@,
    ) + "}}"@;
    let head = "{\"message\": "@ + json_spec(message) + ", \"parents\": ["@;
    let ps = parents.map_values(|p: Seq<char>| json_spec(p));
    let a = id_payload_spec(parents, t, message);
    assert(a =~= head + join_spec(ps, ", "@) + tail);
    assert(a.skip(a.len() - tail.len()) =~= tail);
    assert(a.take(a.len() - tail.len()) =~= head + join_spec(ps, ", "@));
    assert(parents.push(x).map_values(|p: Seq<char>| json_spec(p)) =~= ps.push(json_spec(x)));
    lemma_join_push(ps, json_spec(x), ", "@);
}

fn json_list(parents: &[String]) -> (r: Vec<String>)
    ensures
        strs(r@) == strs(parents@).map_values(|p: Seq<char>| json_spec(p)),
{
    let mut r: Vec<String> = Vec::new();
    let mut i: usize = 0;
    while i < parents.len()
        invariant
            0 <= i <= parents.len(),
            strs(r@) == strs(parents@).take(i as int).map_values(|p: Seq<char>| json_spec(p)),
        decreases parents.len() - i,
    {
        let ghost before = strs(r@);
        let j = json_string(parents[i].as_str());
        r.push(j);
        proof {
            let f = |p: Seq<char>| json_spec(p);
            assert(strs(r@) =~= before.push(j@));
            assert(strs(parents@)[i as int] == parents@[i as int]@);
            assert(strs(parents@).take(i + 1).map_values(f) =~= strs(parents@).take(
                i as int,
            ).map_values(f).push(f(strs(parents@)[i as int])));
        }
        i += 1;
    }
    assert(strs(parents@).take(parents.len() as int) =~= strs(parents@));
    r
}

fn json_pairs(tree: &Tree, indent: &str) -> (r: Vec<String>)
    ensures
        strs(r@) == tree.text_pairs().map_values(
            |e: (Seq<char>, Seq<char>)| indent@ + json_pair(e),
        ),
{
    let mut r: Vec<String> = Vec::new();
    let mut i: usize = 0;
    let n = tree.len();
    while i < n
        invariant
            0 <= i <= n,
            n == tree.text_pairs().len(),
            strs(r@) == tree.text_pairs().take(i as int).map_values(
                |e: (Seq<char>, Seq<char>)| indent@ + json_pair(e),
            ),
        decreases n - i,
    {
        let (k, h) = tree.entry(i);
        let ghost before = strs(r@);
        let mut s = owned(indent);
        let jk = json_string(k.as_str());
        append_str(&mut s, jk.as_str());
        append_str(&mut s, ": ");
        let jh = json_string(h.as_str());
        append_str(&mut s, jh.as_str());
        let ghost sv = s@;
        r.push(s);
        proof {
            let f = |e: (Seq<char>, Seq<char>)| indent@ + json_pair(e);
            assert(strs(r@) =~= before.push(sv));
            assert(sv == f(tree.text_pairs()[i as int]));
            assert(tree.text_pairs().take(i + 1).map_values(f) =~= tree.text_pairs().take(
                i as int,
            ).map_values(f).push(f(tree.text_pairs()[i as int])));
        }
        i += 1;
    }
    assert(tree.text_pairs().take(n as int) =~= tree.text_pairs());
    r
}

/// The text whose SHA-1 gives a version id.
pub fn id_payload(parents: &[String], tree: &Tree, message: &str) -> (r: String)
    ensures
        r@ == id_payload_spec(strs(parents@), tree.text_pairs(), message@),
{
    let mut s = owned("{\"message\": ");
    let jm = json_string(message);
    append_str(&mut s, jm.as_str());
    append_str(&mut s, ", \"parents\": [");
    let ps = json_list(parents);
    let pj = join(&ps, ", ");
    append_str(&mut s, pj.as_str());
    append_str(&mut s, "], \"tree\": {");
    let ts = json_pairs(tree, "");
    assert(tree.text_pairs().map_values(|e: (Seq<char>, Seq<char>)| ""@ + json_pair(e))
        =~= tree.text_pairs().map_values(|e: (Seq<char>, Seq<char>)| json_pair(e))) by {
        reveal_strlit("");
        assert forall|e: (Seq<char>, Seq<char>)| ""@ + json_pair(e) == json_pair(e) by {
            assert(""@ + json_pair(e) =~= json_pair(e));
        }
    }
    let tj = join(&ts, ", ");
    append_str(&mut s, tj.as_str());
    append_str(&mut s, "}}");
    s
}

/// The first 12 hex digits of the SHA-1 of the payload's UTF-8 bytes.
pub open spec fn version_id_spec(
    parents: Seq<Seq<char>>,
    tree: Seq<(Seq<char>, Seq<char>)>,
    message: Seq<char>,
) -> Seq<char> {
    hex_spec(sha1_digest(encode_utf8(id_payload_spec(parents, tree, message)))).take(12)
}

/// The version id of a state: the first 12 hex digits of sha1(payload).
pub fn version_id(parents: &[String], tree: &Tree, message: &str) -> (r: String)
    ensures
        r@ == version_id_spec(strs(parents@), tree.text_pairs(), message@),
        r@.len() == 12,
{
    let p = id_payload(parents, tree, message);
    let h = sha1_hex(p.as_str().as_bytes());
    let hv = chars_of(h.as_str());
    let r = string_of_range(&hv, 0, 12);
    assert(hv@.subrange(0, 12) =~= hv@.take(12));
    r
}

/// The "parents" member of a version file.
pub open spec fn parents_block_spec(parents: Seq<Seq<char>>) -> Seq<char> {
    if parents.len() == 0 {
        "  \"parents\": [],\n"@
    } else {
        "  \"parents\": [\n"@ + join_spec(
            parents.map_values(|p: Seq<char>| "    "@ + json_spec(p)),
            ",\n"@,
        ) + "\n"@ + "  ],\n"@
    }
}

/// The "tree" member of a version file.
pub open spec fn tree_block_spec(tree: Seq<(Seq<char>, Seq<char>)>) -> Seq<char> {
    if tree.len() == 0 {
        "  \"tree\": {}\n"@
    } else {
        "  \"tree\": {\n"@ + join_spec(
            tree.map_values(|e: (Seq<char>, Seq<char>)| "    "@ + json_pair(e)),
            ",\n"@,
        ) + "\n"@ + "  }\n"@
    }
}

/// The JSON text of a version file (keys sorted, two-space indent).
pub open spec fn version_json_spec(
    parents: Seq<Seq<char>>,
    tree: Seq<(Seq<char>, Seq<char>)>,
    message: Seq<char>,
    time: int,
    seq: int,
) -> Seq<char> {
    "{\n"@ + "  \"message\": "@ + json_spec(message) + ",\n"@ + parents_block_spec(parents)
        + "  \"seq\": "@ + dec_spec(seq) + ",\n"@ + "  \"time\": "@ + dec_spec(time) + ",\n"@
        + tree_block_spec(tree) + "}"@
}

fn parents_block(parents: &Vec<String>) -> (s: String)
    ensures
        s@ == parents_block_spec(strs(parents@)),
{
    if parents.len() == 0 {
        return owned("  \"parents\": [],\n");
    }
    let mut s = owned("  \"parents\": [\n");
    let mut lines: Vec<String> = Vec::new();
    let mut i: usize = 0;
    while i < parents.len()
        invariant
            0 <= i <= parents.len(),
            strs(lines@) == strs(parents@).take(i as int).map_values(
                |p: Seq<char>| "    "@ + json_spec(p),
            ),
        decreases parents.len() - i,
    {
        let mut line = owned("    ");
        let jp = json_string(parents[i].as_str());
        append_str(&mut line, jp.as_str());
        let ghost before = strs(lines@);
        let ghost lv = line@;
        lines.push(line);
        proof {
            let f = |p: Seq<char>| "    "@ + json_spec(p);
            assert(strs(lines@) =~= before.push(lv));
            assert(strs(parents@)[i as int] == parents@[i as int]@);
            assert(strs(parents@).take(i + 1).map_values(f) =~= strs(parents@).take(
                i as int,
            ).map_values(f).push(f(strs(parents@)[i as int])));
        }
        i += 1;
    }
    assert(strs(parents@).take(parents.len() as int) =~= strs(parents@));
    let body = join(&lines, ",\n");
    append_str(&mut s, body.as_str());
    append_str(&mut s, "\n");
    append_str(&mut s, "  ],\n");
    s
}

fn tree_block(tree: &Tree) -> (s: String)
    ensures
        s@ == tree_block_spec(tree.text_pairs()),
{
    if tree.is_empty() {
        return owned("  \"tree\": {}\n");
    }
    let mut s = owned("  \"tree\": {\n");
    let lines = json_pairs(tree, "    ");
    let body = join(&lines, ",\n");
    append_str(&mut s, body.as_str());
    append_str(&mut s, "\n");
    append_str(&mut s, "  }\n");
    s
}

/// The content of a version file.
pub fn version_json(v: &Version) -> (r: String)
    ensures
        r@ == version_json_spec(
            strs(v.parents@),
            v.tree.text_pairs(),
            v.message@,
            v.time as int,
            v.seq as int,
        ),
{
    let mut s = owned("{\n");
    append_str(&mut s, "  \"message\": ");
    let jm = json_string(v.message.as_str());
    append_str(&mut s, jm.as_str());
    append_str(&mut s, ",\n");
    let pb = parents_block(&v.parents);
    append_str(&mut s, pb.as_str());
    append_str(&mut s, "  \"seq\": ");
    let ds = dec_i64(v.seq);
    append_str(&mut s, ds.as_str());
    append_str(&mut s, ",\n");
    append_str(&mut s, "  \"time\": ");
    let dt = dec_i64(v.time);
    append_str(&mut s, dt.as_str());
    append_str(&mut s, ",\n");
    let tb = tree_block(&v.tree);
    append_str(&mut s, tb.as_str());
    append_str(&mut s, "}");
    s
}

// ------------------------------------------------------------------ repository layout

/// Name of the data directory.
pub const DATA_DIR: &'static str = ".snap";

/// Name of the cheat sheet inside the data directory.
pub const HELP_DOC_NAME: &'static str = "命令对照表.md";

/// Former names of the data directory, still recognised.
pub fn legacy_dirs() -> (v: Vec<&'static str>)
    ensures
        v@.len() == 1,
        v@[0]@ == ".vsnap"@,
{
    vec![".vsnap"]
}

/// The names a data directory may have, the current one first.
pub open spec fn data_dir_names() -> Seq<Seq<char>> {
    seq![".snap"@, ".vsnap"@]
}

/// Whether a directory is a repository itself, and under which name: `present[i]` tells
/// whether it holds a directory named `data_dir_names()[i]`; the first such name counts.
pub fn data_dir_here(present: &[bool]) -> (r: Option<String>)
    requires
        present@.len() == 2,
    ensures
        present@[0] ==> (r matches Some(n) && n@ == data_dir_names()[0]),
        !present@[0] && present@[1] ==> (r matches Some(n) && n@ == data_dir_names()[1]),
        !present@[0] && !present@[1] ==> r is None,
{
    if present[0] {
        Some(owned(DATA_DIR))
    } else if present[1] {
        let legacy = legacy_dirs();
        Some(owned(legacy[0]))
    } else {
        None
    }
}

/// Names of the ignore file, in order of preference.
pub fn ignore_files() -> (v: Vec<&'static str>)
    ensures
        v@.len() == 2,
        v@[0]@ == ".snapignore"@,
        v@[1]@ == ".vsnapignore"@,
{
    vec![".snapignore", ".vsnapignore"]
}

/// Where an object's name is cut into directory and file: after its first two bytes,
/// i.e. after one character of two UTF-8 bytes or two ASCII characters
/// (`-1` when two bytes do not end on a character boundary).
pub open spec fn object_cut(h: Seq<char>) -> int {
    if h.len() >= 1 && 0x80 <= (h[0] as int) < 0x800 {
        1
    } else if h.len() >= 2 && (h[0] as int) < 0x80 && (h[1] as int) < 0x80 {
        2
    } else {
        -1
    }
}

/// A repository: the project root and the name of its data directory.
#[derive(Clone, Debug)]
pub struct Repo {
    pub root: String,
    pub dir: String,
}

impl Repo {
    /// The data directory.
    pub open spec fn data_dir_spec(&self) -> Seq<char> {
        path_push(self.root@, self.dir@)
    }

    /// A path inside the data directory.
    pub fn data_path(&self, parts: &[&str]) -> (p: String)
        ensures
            p@ == path_push_all(self.data_dir_spec(), parts@.map_values(|s: &str| s@)),
    {
        let ghost pv = parts@.map_values(|s: &str| s@);
        let mut p = self.root.clone();
        push_path(&mut p, self.dir.as_str());
        let mut i: usize = 0;
        while i < parts.len()
            invariant
                0 <= i <= parts.len(),
                pv == parts@.map_values(|s: &str| s@),
                p@ == path_push_all(self.data_dir_spec(), pv.take(i as int)),
            decreases parts.len() - i,
        {
            push_path(&mut p, parts[i]);
            assert(pv.take(i + 1).drop_last() =~= pv.take(i as int));
            i += 1;
        }
        assert(pv.take(parts.len() as int) =~= pv);
        p
    }

    /// The absolute path of a file of the work tree.
    pub fn work_path(&self, rel: &str) -> (p: String)
        ensures
            p@ == join_rel_spec(self.root@, rel@),
    {
        join_rel(self.root.as_str(), rel)
    }

    /// Where the object named `h` is stored: objects/<first two bytes>/<the rest>.
    pub fn object_path(&self, h: &str) -> (p: String)
        requires
            object_cut(h@) > 0,
        ensures
            p@ == path_push_all(
                self.data_dir_spec(),
                seq!["objects"@, h@.take(object_cut(h@)), h@.skip(object_cut(h@))],
            ),
    {
        let hv = chars_of(h);
        let cut: usize = if hv[0] >= '\u{80}' {
            1
        } else {
            2
        };
        let a = string_of_range(&hv, 0, cut);
        let b = string_of_range(&hv, cut, hv.len());
        assert(hv@.subrange(0, cut as int) =~= h@.take(cut as int));
        assert(hv@.subrange(cut as int, hv@.len() as int) =~= h@.skip(cut as int));
        let parts = [ "objects", a.as_str(), b.as_str() ];
        let p = self.data_path(&parts);
        assert(parts@.map_values(|s: &str| s@) =~= seq!["objects"@, a@, b@]);
        proof {
            reveal_with_fuel(path_push_all, 4);
        }
        p
    }

    /// The file holding the current version id.
    pub fn head_path(&self) -> (p: String)
        ensures
            p@ == path_push(self.data_dir_spec(), "HEAD"@),
    {
        let parts = ["HEAD"];
        let p = self.data_path(&parts);
        assert(parts@.map_values(|s: &str| s@) =~= seq!["HEAD"@]);
        assert(seq!["HEAD"@].drop_last() =~= Seq::<Seq<char>>::empty());
        proof {
            reveal_with_fuel(path_push_all, 2);
        }
        p
    }

    /// The file of version `id`: versions/<id>.json.
    pub fn version_path(&self, id: &str) -> (p: String)
        ensures
            p@ == path_push(path_push(self.data_dir_spec(), "versions"@), id@ + ".json"@),
    {
        let name = cat(id, ".json");
        let parts = ["versions", name.as_str()];
        let p = self.data_path(&parts);
        assert(parts@.map_values(|s: &str| s@) =~= seq!["versions"@, name@]);
        assert(seq!["versions"@, name@].drop_last() =~= seq!["versions"@]);
        assert(seq!["versions"@].drop_last() =~= Seq::<Seq<char>>::empty());
        proof {
            reveal_with_fuel(path_push_all, 3);
        }
        p
    }
}

// ------------------------------------------------------------------ resolving, ordering, loading

/// The ids among `ids` that start with `p`, in order.
pub open spec fn prefix_hits(ids: Seq<Seq<char>>, p: Seq<char>) -> Seq<Seq<char>>
    decreases ids.len(),
{
    if ids.len() == 0 {
        Seq::empty()
    } else {
        let r = prefix_hits(ids.drop_last(), p);
        if starts_with_spec(ids.last(), p) {
            r.push(ids.last())
        } else {
            r
        }
    }
}

/// The ids of `versions`, in order.
/// An id is a hit of the prefix `p` exactly when it is one of the ids and begins with `p`.
pub proof fn lemma_prefix_hits_exact(ids: Seq<Seq<char>>, p: Seq<char>)
    ensures
        forall|x: Seq<char>|
            #[trigger] prefix_hits(ids, p).contains(x) <==> (ids.contains(x) && p.len() <= x.len()
                && x.take(p.len() as int) == p),
    decreases ids.len(),
{
    if ids.len() > 0 {
        let front = ids.drop_last();
        lemma_prefix_hits_exact(front, p);
        let r = prefix_hits(front, p);
        assert forall|x: Seq<char>|
            #[trigger] prefix_hits(ids, p).contains(x) <==> (ids.contains(x) && p.len() <= x.len()
                && x.take(p.len() as int) == p) by {
            if ids.contains(x) && !front.contains(x) {
                let k = choose|k: int| 0 <= k < ids.len() && ids[k] == x;
                if k < front.len() {
                    assert(front[k] == x);
                }
                assert(x == ids.last());
            }
            if front.contains(x) {
                let k = choose|k: int| 0 <= k < front.len() && front[k] == x;
                assert(ids[k] == x);
            }
            if r.push(ids.last()).contains(x) && !r.contains(x) {
                let k = choose|k: int| 0 <= k < r.len() + 1 && r.push(ids.last())[k] == x;
                if k < r.len() {
                    assert(r[k] == x);
                }
            }
            if r.contains(x) {
                let k = choose|k: int| 0 <= k < r.len() && r[k] == x;
                assert(r.push(ids.last())[k] == x);
            }
            if x == ids.last() {
                assert(ids[ids.len() - 1] == x);
                assert(r.push(ids.last())[r.len() as int] == x);
            }
        }
    }
}

pub open spec fn version_ids(versions: Seq<Version>) -> Seq<Seq<char>> {
    versions.map_values(|v: Version| v.id@)
}

/// Version ordering: by (seq, time, id).
pub open spec fn version_before(a: Version, b: Version) -> bool {
    ||| a.seq < b.seq
    ||| a.seq == b.seq && a.time < b.time
    ||| a.seq == b.seq && a.time == b.time && seq_less(a.id@, b.id@)
}

/// `vs` in ascending (seq, time, id) order.
pub open spec fn versions_ordered(vs: Seq<Version>) -> bool {
    forall|i: int, j: int| 0 <= i < j < vs.len() ==> !version_before(#[trigger] vs[j], #[trigger] vs[i])
}

pub proof fn lemma_version_before_trans(a: Version, b: Version, c: Version)
    requires
        version_before(a, b),
        version_before(b, c),
    ensures
        version_before(a, c),
{
    if a.seq == b.seq && b.seq == c.seq && a.time == b.time && b.time == c.time {
        lemma_seq_less_trans(a.id@, b.id@, c.id@);
    }
}

pub proof fn lemma_version_before_total(a: Version, b: Version)
    ensures
        !version_before(a, b) && !version_before(b, a) ==> a.seq == b.seq && a.time == b.time
            && a.id@ == b.id@,
{
    lemma_seq_less_total(a.id@, b.id@);
}

fn version_less(a: &Version, b: &Version) -> (r: bool)
    ensures
        r == version_before(*a, *b),
{
    if a.seq != b.seq {
        return a.seq < b.seq;
    }
    if a.time != b.time {
        return a.time < b.time;
    }
    str_less(a.id.as_str(), b.id.as_str())
}

/// Orders versions by (seq, time, id), as the version list shows them.
pub fn sort_versions(v: Vec<Version>) -> (r: Vec<Version>)
    ensures
        r@.to_multiset() == v@.to_multiset(),
        versions_ordered(r@),
{
    broadcast use vstd::seq_lib::group_to_multiset_ensures;

    let mut rest = v;
    let mut out: Vec<Version> = Vec::new();
    assert(rest@.to_multiset().add(out@.to_multiset()) =~= v@.to_multiset()) by {
        broadcast use vstd::multiset::group_multiset_axioms;
    }
    while rest.len() > 0
        invariant
            rest@.to_multiset().add(out@.to_multiset()) == v@.to_multiset(),
            versions_ordered(out@),
        decreases rest.len(),
    {
        let ghost rest0 = rest@;
        let ghost out_start = out@;
        let x = rest.pop().unwrap();
        assert(rest0 =~= rest@.push(x));
        // find the place from the back: after every element that is not after `x`
        let mut k = out.len();
        while k > 0 && version_less(&x, &out[k - 1])
            invariant
                0 <= k <= out.len(),
                versions_ordered(out@),
                forall|j: int| k <= j < out.len() ==> version_before(x, #[trigger] out@[j]),
            decreases k,
        {
            k -= 1;
        }
        let ghost out0 = out@;
        proof {
            if k > 0 {
                assert(!version_before(x, out0[k - 1]));
            }
        }
        out.insert(k, x);
        proof {
            assert(out@ =~= out0.insert(k as int, x));
            broadcast use vstd::multiset::group_multiset_axioms;
            vstd::seq_lib::to_multiset_build(rest@, x);
            vstd::seq_lib::to_multiset_insert(out0, k as int, x);
            assert(rest0.to_multiset() == rest@.to_multiset().insert(x));
            assert(out@.to_multiset() == out0.to_multiset().insert(x));
            assert(rest@.to_multiset().add(out@.to_multiset()) =~= rest0.to_multiset().add(
                out0.to_multiset(),
            ));
            assert forall|i: int, j: int| 0 <= i < j < out@.len() implies !version_before(
                #[trigger] out@[j],
                #[trigger] out@[i],
            ) by {
                if j < k {
                } else if i < k && j == k {
                    // out0[i] <= out0[k-1] and x is not before out0[k-1]
                    if version_before(x, out0[i]) {
                        if i < k - 1 {
                            if version_before(out0[k - 1], out0[i]) {
                            } else {
                                lemma_version_before_total(out0[i], out0[k - 1]);
                                if version_before(out0[i], out0[k - 1]) {
                                    lemma_version_before_trans(x, out0[i], out0[k - 1]);
                                } else {
                                    assert(version_before(x, out0[k - 1]));
                                }
                            }
                        }
                    }
                } else if i < k && j > k {
                } else if i == k {
                    if version_before(out0[j - 1], x) {
                        lemma_version_before_trans(out0[j - 1], x, out0[j - 1]);
                        assert(version_before(x, out0[j - 1]));
                        lemma_version_before_asym(x, out0[j - 1]);
                    }
                } else {
                }
            }
        }
    }
    out
}

pub proof fn lemma_version_before_asym(a: Version, b: Version)
    ensures
        version_before(a, b) ==> !version_before(b, a),
{
    lemma_seq_less_asym(a.id@, b.id@);
}

impl Repo {
    /// Resolves a version id prefix (surrounding white space ignored) among `versions`:
    /// the one id that starts with it, or an error when it is empty, matches none, or
    /// matches several (all of which the message lists).
    pub fn resolve(&self, versions: &[Version], prefix: &str) -> (r: Result<String, SnapError>)
        ensures
            ({
                let p = trim_spec(prefix@);
                let hits = prefix_hits(version_ids(versions@), p);
                &&& p.len() == 0 ==> (r matches Err(e) && e@
                    == "请给出要操作的版本ID（可以只写前几位前缀）"@)
                &&& p.len() > 0 && hits.len() == 0 ==> (r matches Err(e) && e@ == "找不到版本: "@
                    + p)
                &&& p.len() > 0 && hits.len() == 1 ==> (r matches Ok(id) && id@ == hits[0])
                &&& p.len() > 0 && hits.len() > 1 ==> (r matches Err(e) && e@ == "版本ID不唯一: "@
                    + p + " -> "@ + join_spec(hits, ", "@))
            }),
    {
        let p = trim(prefix);
        let pv = chars_of(p.as_str());
        if pv.len() == 0 {
            return Err(SnapError::new("请给出要操作的版本ID（可以只写前几位前缀）"));
        }
        let ghost ids = version_ids(versions@);
        let mut hits: Vec<String> = Vec::new();
        let mut i: usize = 0;
        while i < versions.len()
            invariant
                0 <= i <= versions.len(),
                ids == version_ids(versions@),
                pv@ == p@,
                hits@.map_values(|s: String| s@) == prefix_hits(ids.take(i as int), p@),
            decreases versions.len() - i,
        {
            let idv = chars_of(versions[i].id.as_str());
            assert(ids.take(i + 1).drop_last() =~= ids.take(i as int));
            assert(ids.take(i + 1).last() == versions@[i as int].id@);
            if starts_with(&idv, &pv) {
                let ghost before = hits@.map_values(|s: String| s@);
                hits.push(versions[i].id.clone());
                assert(hits@.map_values(|s: String| s@) =~= before.push(versions@[i as int].id@));
            }
            i += 1;
        }
        assert(ids.take(versions.len() as int) =~= ids);
        if hits.len() == 0 {
            return Err(SnapError::from_string(cat("找不到版本: ", p.as_str())));
        }
        if hits.len() == 1 {
            return Ok(hits[0].clone());
        }
        let mut msg = cat("版本ID不唯一: ", p.as_str());
        append_str(&mut msg, " -> ");
        let all = join(&hits, ", ");
        append_str(&mut msg, all.as_str());
        Err(SnapError::from_string(msg))
    }
}


// ------------------------------------------------------------------ reading a version file

/// The members of the version's "tree" object, if it has one.
pub open spec fn tree_members(v: JsonValue) -> Option<Seq<(String, JsonValue)>> {
    match value_get(v, "tree"@) {
        Some(JsonValue::Object(es)) => Some(es@),
        _ => None,
    }
}

/// The tree that "tree" members give: members whose value is a string, with "\" in a path
/// read as "/" (older versions may hold platform separators) and the running program left
/// out; of two members that come to the same path, the later one counts.
pub open spec fn tree_of_members(
    es: Seq<(String, JsonValue)>,
    root: Seq<char>,
    self_path: Option<Seq<char>>,
    windows: bool,
) -> Map<Seq<char>, Seq<char>>
    decreases es.len(),
{
    if es.len() == 0 {
        Map::empty()
    } else {
        let m = tree_of_members(es.drop_last(), root, self_path, windows);
        let key = replace_char_spec(es.last().0@, '\\', '/');
        match value_str(es.last().1) {
            Some(h) => if is_self_path_spec(root, key, self_path, windows) {
                m
            } else {
                m.insert(key, h)
            },
            None => m,
        }
    }
}

/// The strings among `vs`, in order.
pub open spec fn str_items(vs: Seq<JsonValue>) -> Seq<Seq<char>>
    decreases vs.len(),
{
    if vs.len() == 0 {
        Seq::empty()
    } else {
        let r = str_items(vs.drop_last());
        match value_str(vs.last()) {
            Some(s) => r.push(s),
            None => r,
        }
    }
}

/// The parents a version value lists (its "parents" array's strings; none without one).
pub open spec fn parents_of(v: JsonValue) -> Seq<Seq<char>> {
    match value_get(v, "parents"@) {
        Some(JsonValue::Array(a)) => str_items(a@),
        _ => Seq::empty(),
    }
}

/// A string member, or "" when it is missing or not a string.
pub open spec fn str_member(v: JsonValue, key: Seq<char>) -> Seq<char> {
    match value_get(v, key) {
        Some(x) => match value_str(x) {
            Some(s) => s,
            None => Seq::empty(),
        },
        None => Seq::empty(),
    }
}

/// An integer member, or 0 when it is missing or not an `i64`.
pub open spec fn int_member(v: JsonValue, key: Seq<char>) -> i64 {
    match value_get(v, key) {
        Some(x) => match value_i64(x) {
            Some(n) => n,
            None => 0,
        },
        None => 0,
    }
}

/// What reading version `id` from the value `v` gives: an error when `v` has no "tree"
/// object, else the version with those fields.
pub open spec fn version_read(
    id: Seq<char>,
    v: JsonValue,
    root: Seq<char>,
    self_path: Option<Seq<char>>,
    windows: bool,
    r: Result<Version, SnapError>,
) -> bool {
    match tree_members(v) {
        None => r matches Err(e) && e@ == "版本文件损坏: "@ + id + " (缺少 tree 字段)"@,
        Some(es) => r matches Ok(ver) && ver.id@ == id && ver.tree.text_view() == tree_of_members(
            es,
            root,
            self_path,
            windows,
        ) && strs(ver.parents@) == parents_of(v) && ver.message@ == str_member(v, "message"@)
            && ver.time == int_member(v, "time"@) && ver.seq == int_member(v, "seq"@),
    }
}

/// `Some(s@)` for `Some(s)`.
pub open spec fn opt_view(o: Option<&str>) -> Option<Seq<char>> {
    match o {
        Some(s) => Some(s@),
        None => None,
    }
}

fn members_tree(
    es: &Vec<(String, JsonValue)>,
    root: &str,
    self_path: Option<&str>,
    windows: bool,
) -> (t: Tree)
    ensures
        t.text_view() == tree_of_members(es@, root@, opt_view(self_path), windows),
{
    let mut t = Tree::new();
    let mut i: usize = 0;
    while i < es.len()
        invariant
            0 <= i <= es.len(),
            t.text_view() == tree_of_members(es@.take(i as int), root@, opt_view(self_path), windows),
        decreases es.len() - i,
    {
        let ghost sp = opt_view(self_path);
        assert(es@.take(i + 1).drop_last() =~= es@.take(i as int));
        assert(es@.take(i + 1).last() == es@[i as int]);
        let (k, hv) = (&es[i].0, &es[i].1);
        if let JsonValue::Str(h) = hv {
            let key = replace_char(k.as_str(), '\\', '/');
            if !is_self_path(root, key.as_str(), self_path, windows) {
                let ghost before = t@;
                let hh = h.clone();
                t.insert(key, hh);
                proof {
                    lemma_text_insert(before, key@, hh);
                }
            }
        }
        i += 1;
    }
    assert(es@.take(es.len() as int) =~= es@);
    t
}

fn str_items_of(a: &Vec<JsonValue>) -> (r: Vec<String>)
    ensures
        strs(r@) == str_items(a@),
{
    let mut r: Vec<String> = Vec::new();
    let mut i: usize = 0;
    while i < a.len()
        invariant
            0 <= i <= a.len(),
            strs(r@) == str_items(a@.take(i as int)),
        decreases a.len() - i,
    {
        assert(a@.take(i + 1).drop_last() =~= a@.take(i as int));
        assert(a@.take(i + 1).last() == a@[i as int]);
        if let JsonValue::Str(s) = &a[i] {
            let ghost before = r@;
            r.push(s.clone());
            assert(strs(r@) =~= strs(before).push(s@));
        }
        i += 1;
    }
    assert(a@.take(a.len() as int) =~= a@);
    r
}

fn int_member_of(v: &JsonValue, key: &str) -> (n: i64)
    ensures
        n == int_member(*v, key@),
{
    match get(v, key) {
        Some(x) => match as_i64(x) {
            Some(n) => n,
            None => 0,
        },
        None => 0,
    }
}

/// Builds version `id` from the parsed content of its file (see `version_read`).
pub fn version_from_json(
    id: &str,
    v: &JsonValue,
    root: &str,
    self_path: Option<&str>,
    windows: bool,
) -> (r: Result<Version, SnapError>)
    ensures
        version_read(id@, *v, root@, opt_view(self_path), windows, r),
{
    proof {
        reveal_strlit("tree");
        reveal_strlit("parents");
        reveal_strlit("message");
        reveal_strlit("time");
        reveal_strlit("seq");
    }
    let es = match get(v, "tree") {
        Some(JsonValue::Object(es)) => es,
        _ => {
            let mut msg = cat("版本文件损坏: ", id);
            append_str(&mut msg, " (缺少 tree 字段)");
            return Err(SnapError::from_string(msg));
        },
    };
    let tree = members_tree(es, root, self_path, windows);
    let parents = match get(v, "parents") {
        Some(JsonValue::Array(a)) => str_items_of(a),
        _ => Vec::new(),
    };
    assert(parents@.len() == 0 ==> strs(parents@) =~= Seq::<Seq<char>>::empty());
    let message = match get(v, "message") {
        Some(JsonValue::Str(s)) => s.clone(),
        _ => String::new(),
    };
    let time = int_member_of(v, "time");
    let seq = int_member_of(v, "seq");
    Ok(Version { id: owned(id), parents, tree, message, time, seq })
}

impl Repo {
    /// Reads version `id` from the text of its file: an error naming the version when the
    /// text is not JSON (with serde_json's message) or has no "tree" object.
    pub fn load_version(
        &self,
        id: &str,
        text: &str,
        self_path: Option<&str>,
        windows: bool,
    ) -> (r: Result<Version, SnapError>)
        ensures
            match json_parse(text@) {
                Err(e) => r matches Err(x) && x@ == "版本文件损坏: "@ + id@ + " ("@ + e + ")"@,
                Ok(v) => version_read(id@, v, self.root@, opt_view(self_path), windows, r),
            },
    {
        match parse_json(text) {
            Err(e) => {
                let mut msg = cat("版本文件损坏: ", id);
                append_str(&mut msg, " (");
                append_str(&mut msg, e.as_str());
                append_str(&mut msg, ")");
                Err(SnapError::from_string(msg))
            },
            Ok(v) => version_from_json(id, &v, self.root.as_str(), self_path, windows),
        }
    }
}


// ------------------------------------------------------------------ HEAD, counter, ignore rules

/// The current version named by the text of the HEAD file: the trimmed text, none if empty.
pub open spec fn head_spec(text: Seq<char>) -> Option<Seq<char>> {
    if trim_spec(text).len() == 0 {
        None
    } else {
        Some(trim_spec(text))
    }
}

/// The current version named by the text of the HEAD file.
pub fn head_from_text(text: &str) -> (r: Option<String>)
    ensures
        match r {
            Some(s) => head_spec(text@) == Some(s@),
            None => head_spec(text@) == None::<Seq<char>>,
        },
{
    let t = trim(text);
    let tv = chars_of(t.as_str());
    if tv.len() == 0 {
        None
    } else {
        Some(t)
    }
}

/// The counter value after the one the counter file holds (0 when it is missing or is not
/// a number); past the largest value it wraps round, as the counter's `+ 1` does.
pub open spec fn next_seq_spec(text: Option<Seq<char>>) -> i64 {
    let cur: i64 = match text {
        Some(t) => match parse_int_spec(trim_spec(t), true) {
            Some(n) => if i64::MIN <= n <= i64::MAX {
                n as i64
            } else {
                0
            },
            None => 0,
        },
        None => 0,
    };
    if cur == i64::MAX {
        i64::MIN
    } else {
        (cur + 1) as i64
    }
}

/// The next value of the version counter, from the text of the counter file.
pub fn next_seq_from(text: Option<&str>) -> (n: i64)
    ensures
        n == next_seq_spec(opt_view(text)),
{
    let cur: i64 = match text {
        Some(t) => {
            let tt = trim(t);
            match parse_i64(tt.as_str()) {
                Some(n) => n,
                None => 0,
            }
        },
        None => 0,
    };
    if cur == 0x7fff_ffff_ffff_ffffi64 {
        -0x8000_0000_0000_0000i64
    } else {
        cur + 1
    }
}

/// The rule lines in force: the defaults, then the lines of the ignore file, if there is one.
pub open spec fn rule_lines(text: Option<Seq<char>>) -> Seq<Seq<char>> {
    match text {
        Some(t) => default_lines() + lines_spec(t),
        None => default_lines(),
    }
}

impl Repo {
    /// The ignore rules: the defaults, then those of the ignore file's text (the first of
    /// `.snapignore` and `.vsnapignore` that exists), if any.
    pub fn load_ignore(&self, text: Option<&str>) -> (r: Vec<Pattern>)
        ensures
            r@.map_values(|p: Pattern| p@) == compile_spec(rule_lines(opt_view(text))),
    {
        let defaults = default_ignore();
        let extra: Vec<String> = match text {
            Some(t) => lines(t),
            None => Vec::new(),
        };
        let ghost ev = extra@.map_values(|l: String| l@);
        let mut all: Vec<&str> = Vec::new();
        let mut i: usize = 0;
        while i < defaults.len()
            invariant
                0 <= i <= defaults.len(),
                defaults@.map_values(|s: &str| s@) == default_lines(),
                all@.map_values(|s: &str| s@) == default_lines().take(i as int),
            decreases defaults.len() - i,
        {
            let ghost before = all@;
            assert(defaults@[i as int]@ == default_lines()[i as int]);
            all.push(defaults[i]);
            assert(all@.map_values(|s: &str| s@) =~= before.map_values(|s: &str| s@).push(
                default_lines()[i as int],
            ));
            assert(all@.map_values(|s: &str| s@) =~= default_lines().take(i + 1));
            i += 1;
        }
        assert(default_lines().take(defaults.len() as int) =~= default_lines());
        let mut j: usize = 0;
        while j < extra.len()
            invariant
                0 <= j <= extra.len(),
                ev == extra@.map_values(|l: String| l@),
                all@.map_values(|s: &str| s@) == default_lines() + ev.take(j as int),
            decreases extra.len() - j,
        {
            let ghost before = all@;
            assert(extra@[j as int]@ == ev[j as int]);
            all.push(extra[j].as_str());
            assert(all@.map_values(|s: &str| s@) =~= before.map_values(|s: &str| s@).push(
                ev[j as int],
            ));
            assert(all@.map_values(|s: &str| s@) =~= default_lines() + ev.take(j + 1));
            j += 1;
        }
        assert(ev.take(extra.len() as int) =~= ev);
        proof {
            match text {
                Some(t) => {},
                None => {
                    assert(ev.len() == 0);
                    assert(default_lines() + ev =~= default_lines());
                },
            }
        }
        compile(&all)
    }
}


// ------------------------------------------------------------------ laws of the small files

/// What HEAD is written with is what it is read as: a version id (not empty, no white space
/// at either end) reads back as itself, and an empty HEAD as no version.
pub proof fn lemma_head_roundtrip(id: Seq<char>)
    ensures
        id.len() > 0 && !is_ws(id[0]) && !is_ws(id.last()) ==> head_spec(id) == Some(id),
        head_spec(Seq::empty()) == None::<Seq<char>>,
{
    if id.len() > 0 && !is_ws(id[0]) && !is_ws(id.last()) {
        lemma_trim_plain(id);
    }
    assert(trim_start_spec(Seq::<char>::empty()) == Seq::<char>::empty());
}

/// The counter goes up by one each time: when the counter file holds the number last
/// handed out, the next one is that number plus one (wrapping round past the largest).
pub proof fn lemma_next_seq_counts(n: i64)
    ensures
        next_seq_spec(Some(dec_spec(n as int))) == (if n == i64::MAX {
            i64::MIN
        } else {
            (n + 1) as i64
        }),
{
    lemma_dec_roundtrip(n as int);
}

/// A version's id depends on its parents, tree and message only: two versions that agree
/// on these get the same id, whatever their times and counters.
pub proof fn lemma_id_content_addressed(a: Version, b: Version)
    requires
        strs(a.parents@) == strs(b.parents@),
        a.tree.text_pairs() == b.tree.text_pairs(),
        a.message@ == b.message@,
    ensures
        version_id_spec(strs(a.parents@), a.tree.text_pairs(), a.message@) == version_id_spec(
            strs(b.parents@),
            b.tree.text_pairs(),
            b.message@,
        ),
{
}

} // verus!
