//! Storing file contents as objects: how hard to compress a file, and the object itself.
//!
//! Small files are mostly source and text, which level 6 shrinks more; big files are mostly
//! images, media and archives, already compressed, on which level 6 only burns time. A big
//! file is first probed: sixteen 64 KiB segments spread over it are compressed at level 1,
//! and when the median segment saves less than a tenth, the file is stored without
//! compression (the head of an image may compress well while its body does not, so the
//! start alone would mislead; the median is not swayed by a few such segments).
use vstd::prelude::*;
use crate::checkout::{byte_prefix, width};
use crate::chunk::{compress_chunk, inflates_to, zlib_decompress, zlib_deflate, zlib_inflate};
use crate::text::{append_str, cat, chars_of, owned, string_of_range};
use crate::digest::{hex_spec, sha1_digest, sha1_hex};
use crate::error::SnapError;

verus! {

/// Compression level of small files.
pub const COMPRESSION_LEVEL_SMALL: u32 = 6;

/// Compression level of big files.
pub const COMPRESSION_LEVEL_BIG: u32 = 1;

/// Files of at least this size (4 MiB) count as big.
pub const BIG_FILE_BYTES: u64 = 0x40_0000;

/// Files of at least this size (4 MiB) are probed before choosing a level.
pub const PROBE_MIN_BYTES: u64 = 0x40_0000;

/// Number of probe segments.
pub const PROBE_SEGMENTS: u64 = 16;

/// Length of a probe segment (64 KiB).
pub const PROBE_SEG_BYTES: u64 = 0x1_0000;

/// A probe segment shorter than this ends the probe.
pub const PROBE_MIN_SAMPLE: u64 = 1024;

/// The level a file of `size` bytes gets by its size alone.
pub open spec fn level_for_spec(size: u64) -> u32 {
    if size >= BIG_FILE_BYTES {
        COMPRESSION_LEVEL_BIG
    } else {
        COMPRESSION_LEVEL_SMALL
    }
}

/// The level a file of `size` bytes gets by its size alone.
pub fn level_for(size: u64) -> (l: u32)
    ensures
        l == level_for_spec(size),
{
    if size >= BIG_FILE_BYTES {
        COMPRESSION_LEVEL_BIG
    } else {
        COMPRESSION_LEVEL_SMALL
    }
}

/// Where probe segment `i` of a file of `size` bytes starts: spread evenly from the start
/// to the last full segment.
pub open spec fn probe_offset_spec(size: u64, i: u64) -> int {
    if size <= PROBE_SEG_BYTES {
        0
    } else {
        (size - PROBE_SEG_BYTES) * i / (PROBE_SEGMENTS - 1)
    }
}

/// Where probe segment `i` starts.
pub fn probe_offset(size: u64, i: u64) -> (off: u64)
    requires
        i < PROBE_SEGMENTS,
    ensures
        off == probe_offset_spec(size, i),
        off + PROBE_SEG_BYTES <= size || size <= PROBE_SEG_BYTES,
{
    if size <= PROBE_SEG_BYTES {
        0
    } else {
        let span = (size - PROBE_SEG_BYTES) as u128;
        assert(span * (i as u128) <= 0xffff_ffff_ffff_ffffu128 * 16) by (nonlinear_arith)
            requires
                span <= 0xffff_ffff_ffff_ffffu128,
                i < 16,
        ;
        let off = span * (i as u128) / 15;
        assert(off <= span) by (nonlinear_arith)
            requires
                off == span * (i as u128) / 15,
                i < 16,
        ;
        off as u64
    }
}

/// One probe sample: compressed length and raw length of a segment.
pub type Sample = (u64, u64);

/// A segment's saving is under a tenth: `1 - c/n < 0.10` as `f64` arithmetic computes it.
/// In integers that is `10 c >= 9 n` for every segment of at most 64 KiB (a saving of
/// exactly a tenth comes out a hair under 0.10 in `f64`, so it counts as under).
pub open spec fn low_gain(s: Sample) -> bool {
    10 * s.0 >= 9 * s.1
}

/// The sample a probe segment gives: none when the segment is shorter than 1024 bytes
/// (which ends the probe), else the compressed and raw lengths at level 1.
pub fn probe_sample(raw: &[u8]) -> (r: Option<Sample>)
    ensures
        raw@.len() < PROBE_MIN_SAMPLE ==> r is None,
        raw@.len() >= PROBE_MIN_SAMPLE ==> (r matches Some(s) && s.1 == raw@.len() && s.0
            == zlib_deflate(raw@, COMPRESSION_LEVEL_BIG).len()),
{
    if (raw.len() as u64) < PROBE_MIN_SAMPLE {
        return None;
    }
    match compress_chunk(raw, COMPRESSION_LEVEL_BIG) {
        Ok(out) => Some((out.len() as u64, raw.len() as u64)),
        Err(_) => None,
    }
}

/// Number of samples whose saving is under a tenth.
pub open spec fn low_count(s: Seq<Sample>) -> nat
    decreases s.len(),
{
    if s.len() == 0 {
        0
    } else {
        low_count(s.drop_last()) + if low_gain(s.last()) {
            1nat
        } else {
            0nat
        }
    }
}

/// The level for a file of `size` bytes with the probe samples `samples`: by size when the
/// file is below the probe size or no sample was taken; otherwise 0 (store) when the median
/// saving is under a tenth, that is when more than half of the samples save under a tenth
/// (at least `len / 2 + 1` of them), else by size.
pub open spec fn pick_level_spec(size: u64, samples: Seq<Sample>) -> u32 {
    if size < PROBE_MIN_BYTES || samples.len() == 0 {
        level_for_spec(size)
    } else if low_count(samples) >= samples.len() / 2 + 1 {
        0
    } else {
        level_for_spec(size)
    }
}

/// The compression level for a file of `size` bytes, given its probe samples.
pub fn pick_level(size: u64, samples: &[Sample]) -> (l: u32)
    ensures
        l == pick_level_spec(size, samples@),
        l <= 9,
{
    if size < PROBE_MIN_BYTES || samples.len() == 0 {
        return level_for(size);
    }
    let mut low: usize = 0;
    let mut i: usize = 0;
    while i < samples.len()
        invariant
            0 <= i <= samples.len(),
            low == low_count(samples@.take(i as int)),
            low <= i,
        decreases samples.len() - i,
    {
        let (c, n) = samples[i];
        assert(samples@.take(i + 1).drop_last() =~= samples@.take(i as int));
        if 10 * (c as u128) >= 9 * (n as u128) {
            low += 1;
        }
        i += 1;
    }
    assert(samples@.take(samples.len() as int) =~= samples@);
    if low >= samples.len() / 2 + 1 {
        0
    } else {
        level_for(size)
    }
}

/// Saving ordered: `a` saves no more (relatively) than `b`.
pub open spec fn gain_le(a: Sample, b: Sample) -> bool {
    b.0 * a.1 <= a.0 * b.1
}

/// Samples in ascending order of saving.
pub open spec fn by_gain(s: Seq<Sample>) -> bool {
    forall|i: int, j: int| 0 <= i < j < s.len() ==> gain_le(#[trigger] s[i], #[trigger] s[j])
}

/// A sample that saves no more than one that saves under a tenth also saves under a tenth.
proof fn lemma_low_gain_down(a: Sample, b: Sample)
    requires
        a.1 > 0,
        b.1 > 0,
        gain_le(a, b),
        low_gain(b),
    ensures
        low_gain(a),
{
    let (ca, na, cb, nb) = (a.0 as int, a.1 as int, b.0 as int, b.1 as int);
    assert(10 * ca >= 9 * na) by (nonlinear_arith)
        requires
            na > 0,
            nb > 0,
            cb * na <= ca * nb,
            10 * cb >= 9 * nb,
    ;
}

/// In samples sorted by saving, the low ones come first: a low one has only low ones
/// before it.
proof fn lemma_low_prefix(s: Seq<Sample>, j: int, k: int)
    requires
        by_gain(s),
        forall|i: int| 0 <= i < s.len() ==> (#[trigger] s[i]).1 > 0,
        0 <= k < j < s.len(),
        low_gain(s[j]),
    ensures
        low_gain(s[k]),
{
    lemma_low_gain_down(s[k], s[j]);
}

proof fn lemma_low_count_bounds(s: Seq<Sample>, m: int)
    requires
        by_gain(s),
        forall|i: int| 0 <= i < s.len() ==> (#[trigger] s[i]).1 > 0,
        0 <= m < s.len(),
    ensures
        low_gain(s[m]) ==> low_count(s) >= m + 1,
        !low_gain(s[m]) ==> low_count(s) <= m,
    decreases s.len(),
{
    let n = s.len() - 1;
    let t = s.drop_last();
    if m < n {
        assert(by_gain(t));
        lemma_low_count_bounds(t, m);
        if !low_gain(s[m]) {
            // everything after a high sample is high
            if low_gain(s[n]) {
                lemma_low_prefix(s, n, m);
            }
        }
    } else {
        // m is the last position
        if low_gain(s[m]) {
            assert forall|k: int| 0 <= k < n implies low_gain(#[trigger] t[k]) by {
                lemma_low_prefix(s, m, k);
            }
            lemma_all_low(t);
        } else {
            lemma_count_le_len(t);
        }
    }
}

proof fn lemma_all_low(s: Seq<Sample>)
    requires
        forall|k: int| 0 <= k < s.len() ==> low_gain(#[trigger] s[k]),
    ensures
        low_count(s) == s.len(),
    decreases s.len(),
{
    if s.len() > 0 {
        lemma_all_low(s.drop_last());
    }
}

proof fn lemma_count_le_len(s: Seq<Sample>)
    ensures
        low_count(s) <= s.len(),
    decreases s.len(),
{
    if s.len() > 0 {
        lemma_count_le_len(s.drop_last());
    }
}

/// Reordering samples does not change how many save under a tenth.
pub proof fn lemma_low_count_perm(a: Seq<Sample>, b: Seq<Sample>)
    requires
        a.to_multiset() == b.to_multiset(),
    ensures
        low_count(a) == low_count(b),
    decreases a.len(),
{
    broadcast use vstd::seq_lib::group_to_multiset_ensures;
    broadcast use vstd::multiset::group_multiset_axioms;

    if a.len() > 0 {
        let x = a.last();
        let a1 = a.drop_last();
        assert(a =~= a1.push(x));
        assert(b.to_multiset().contains(x));
        let k = choose|k: int| 0 <= k < b.len() && b[k] == x;
        let b1 = b.remove(k);
        vstd::seq_lib::to_multiset_remove(b, k);
        assert(a1.to_multiset() =~= b1.to_multiset());
        lemma_low_count_perm(a1, b1);
        lemma_low_count_remove(b, k);
    } else {
        assert(b.to_multiset().len() == 0);
    }
}

proof fn lemma_low_count_remove(s: Seq<Sample>, k: int)
    requires
        0 <= k < s.len(),
    ensures
        low_count(s) == low_count(s.remove(k)) + if low_gain(s[k]) {
            1nat
        } else {
            0nat
        },
    decreases s.len(),
{
    if k < s.len() - 1 {
        lemma_low_count_remove(s.drop_last(), k);
        assert(s.remove(k).drop_last() =~= s.drop_last().remove(k));
        assert(s.remove(k).last() == s.last());
    } else {
        assert(s.remove(k) =~= s.drop_last());
    }
}

/// The store-or-compress rule is the median rule: whenever the samples (all non-empty)
/// are put in ascending order of saving, `pick_level` stores without compression exactly
/// when the middle one (index `len / 2`) saves under a tenth.
pub proof fn lemma_pick_level_median(size: u64, samples: Seq<Sample>, sorted: Seq<Sample>)
    requires
        size >= PROBE_MIN_BYTES,
        samples.len() > 0,
        sorted.to_multiset() == samples.to_multiset(),
        by_gain(sorted),
        forall|i: int| 0 <= i < sorted.len() ==> (#[trigger] sorted[i]).1 > 0,
    ensures
        (pick_level_spec(size, samples) == 0) <==> low_gain(sorted[(samples.len() / 2) as int]),
{
    broadcast use vstd::seq_lib::group_to_multiset_ensures;

    assert(sorted.len() == samples.len()) by {
        vstd::seq_lib::to_multiset_len(sorted);
        vstd::seq_lib::to_multiset_len(samples);
    }
    lemma_low_count_perm(sorted, samples);
    lemma_low_count_bounds(sorted, (samples.len() / 2) as int);
}

/// An object for small content: its name (the hex SHA-1 of the content) and the content
/// compressed at `level`.
pub fn encode_object(data: &[u8], level: u32) -> (r: Result<(String, Vec<u8>), SnapError>)
    requires
        level <= 9,
    ensures
        r matches Ok((name, stored)) && name@ == hex_spec(sha1_digest(data@)) && stored@
            == zlib_deflate(data@, level) && inflates_to(stored@, data@),
{
    let name = sha1_hex(data);
    let stored = compress_chunk(data, level)?;
    Ok((name, stored))
}


/// How an object is named in a message: its first 8 bytes (the whole name when it is
/// shorter, or when byte 8 falls inside a character).
pub open spec fn short_name(name: Seq<char>) -> Seq<char> {
    match byte_prefix(name, 8) {
        Some(p) => p,
        None => name,
    }
}

/// What restoring an object stored as one zlib stream gives: the decoded bytes, or an error
/// naming the object with flate2's message.
pub open spec fn restore_spec(name: Seq<char>, stored: Seq<u8>) -> Result<Seq<u8>, Seq<char>> {
    match zlib_inflate(stored) {
        Ok(v) => Ok(v),
        Err(m) => Err("对象 "@ + short_name(name) + "… 解压失败: "@ + m),
    }
}

fn short_of(name: &str) -> (r: String)
    ensures
        r@ == short_name(name@),
{
    let v = chars_of(name);
    let mut i: usize = 0;
    let mut bytes: usize = 0;
    assert(v@.skip(0) =~= v@);
    while i < v.len() && bytes < 8
        invariant
            0 <= i <= v.len(),
            v@ == name@,
            bytes <= 8,
            short_name(name@) == match byte_prefix(v@.skip(i as int), 8 - bytes) {
                Some(p) => v@.take(i as int) + p,
                None => name@,
            },
        decreases v.len() - i,
    {
        let c = v[i];
        let w = width(c);
        assert(v@.skip(i as int)[0] == c);
        assert(v@.skip(i as int).drop_first() =~= v@.skip(i + 1));
        assert(v@.take(i + 1) =~= v@.take(i as int) + seq![c]);
        if w > 8 - bytes {
            return owned(name);
        }
        i += 1;
        bytes += w;
    }
    if bytes < 8 {
        assert(v@.skip(i as int) =~= Seq::<char>::empty());
        return owned(name);
    }
    assert(byte_prefix(v@.skip(i as int), 0) == Some(Seq::<char>::empty()));
    assert(v@.take(i as int) + Seq::<char>::empty() =~= v@.take(i as int));
    string_of_range(&v, 0, i)
}

/// Restores the content of an object stored as one zlib stream (see `restore_spec`).
pub fn restore_object(name: &str, stored: &[u8]) -> (r: Result<Vec<u8>, SnapError>)
    ensures
        restore_spec(name@, stored@) == (match r {
            Ok(b) => Ok::<Seq<u8>, Seq<char>>(b@),
            Err(e) => Err::<Seq<u8>, Seq<char>>(e@),
        }),
{
    match zlib_decompress(stored) {
        Ok(v) => Ok(v),
        Err(m) => {
            let short = short_of(name);
            let mut msg = cat("对象 ", short.as_str());
            append_str(&mut msg, "… 解压失败: ");
            append_str(&mut msg, m.as_str());
            Err(SnapError::from_string(msg))
        },
    }
}

/// What is stored is restored: the object `encode_object` makes of `data` (at any level)
/// restores to `data`.
pub proof fn lemma_object_roundtrip(name: Seq<char>, data: Seq<u8>, level: u32)
    requires
        inflates_to(zlib_deflate(data, level), data),
    ensures
        restore_spec(name, zlib_deflate(data, level)) == Ok::<Seq<u8>, Seq<char>>(data),
{
}

} // verus!
