//! Objects of large files: the file is cut into 4 MB chunks, each compressed on its own
//! (so that several cores can work at once), and the chunks go into one container.
//!
//! Container layout (little-endian):
//!
//!   0   magic "SNPCHUNK" (8 bytes)
//!   8   version      u32 = 1
//!   12  chunk size   u32   raw bytes per chunk
//!   16  count        u64   number of chunks
//!   24  table[count] x 16  per chunk: data offset u64, compressed length u32, raw length u32
//!   then the compressed chunks, in the order they were finished (the table says where)
//!
//! The object is still named by the SHA-1 of the raw content, so versions and
//! de-duplication do not change; objects that are one zlib stream are still read.
use vstd::prelude::*;
use std::io::{Read, Write};
use flate2::Compression;
use flate2::read::ZlibDecoder;
use flate2::write::ZlibEncoder;
use crate::error::SnapError;
use crate::text::{append_str, cat, dec_spec, dec_u64, digits_spec, parse_int_spec, parse_u64,
    trim, trim_spec};

verus! {

/// Format version written into the container.
pub const VERSION: u32 = 1;

/// Raw bytes per chunk (4 MiB).
pub const CHUNK_BYTES: u64 = 0x40_0000;

/// Files of at least this size (8 MiB) are stored as chunk containers (below it, splitting
/// gains nothing and costs a header).
pub const CHUNK_MIN_BYTES: u64 = 0x80_0000;

/// Bytes per table entry: offset 8 + compressed length 4 + raw length 4.
pub const ENTRY: u64 = 16;

/// Bytes before the table: magic 8 + version 4 + chunk size 4 + count 8.
pub const PREAMBLE: u64 = 24;

/// The magic "SNPCHUNK".
pub open spec fn magic_spec() -> Seq<u8> {
    seq![0x53u8, 0x4e, 0x50, 0x43, 0x48, 0x55, 0x4e, 0x4b]
}

/// The magic bytes.
pub fn magic() -> (m: Vec<u8>)
    ensures
        m@ == magic_spec(),
{
    let m = vec![0x53u8, 0x4e, 0x50, 0x43, 0x48, 0x55, 0x4e, 0x4b];
    assert(m@ =~= magic_spec());
    m
}

// ------------------------------------------------------------------ little-endian numbers

/// `256^w`.
pub open spec fn byte_cap(w: nat) -> nat
    decreases w,
{
    if w == 0 {
        1
    } else {
        256 * byte_cap((w - 1) as nat)
    }
}

/// The `w` low bytes of `n`, least significant first.
pub open spec fn le_bytes(n: nat, w: nat) -> Seq<u8>
    decreases w,
{
    if w == 0 {
        Seq::empty()
    } else {
        seq![(n % 256) as u8] + le_bytes(n / 256, (w - 1) as nat)
    }
}

/// The number that little-endian bytes spell.
pub open spec fn le_value(s: Seq<u8>) -> nat
    decreases s.len(),
{
    if s.len() == 0 {
        0
    } else {
        s[0] as nat + 256 * le_value(s.drop_first())
    }
}

pub proof fn lemma_le_bytes_len(n: nat, w: nat)
    ensures
        le_bytes(n, w).len() == w,
    decreases w,
{
    if w > 0 {
        lemma_le_bytes_len(n / 256, (w - 1) as nat);
    }
}

pub proof fn lemma_le_value_bound(s: Seq<u8>)
    ensures
        le_value(s) < byte_cap(s.len()),
    decreases s.len(),
{
    if s.len() > 0 {
        lemma_le_value_bound(s.drop_first());
    }
}

/// Reading back the bytes of a number that fits gives the number.
pub proof fn lemma_le_roundtrip(n: nat, w: nat)
    requires
        n < byte_cap(w),
    ensures
        le_value(le_bytes(n, w)) == n,
    decreases w,
{
    if w > 0 {
        let c = byte_cap((w - 1) as nat);
        assert(n / 256 < c) by (nonlinear_arith)
            requires
                n < 256 * c,
        ;
        lemma_le_roundtrip(n / 256, (w - 1) as nat);
        let b = le_bytes(n, w);
        assert(b.drop_first() =~= le_bytes(n / 256, (w - 1) as nat));
    }
}

/// Appends the `w` low bytes of `n`, least significant first.
fn push_le(out: &mut Vec<u8>, n: u64, w: usize)
    ensures
        final(out)@ == old(out)@ + le_bytes(n as nat, w as nat),
    decreases w,
{
    if w == 0 {
        assert(old(out)@ + le_bytes(n as nat, 0) =~= old(out)@);
        return;
    }
    out.push((n % 256) as u8);
    push_le(out, n / 256, w - 1);
    assert(old(out)@ + le_bytes(n as nat, w as nat) =~= old(out)@.push((n % 256) as u8)
        + le_bytes((n / 256) as nat, (w - 1) as nat));
}

/// The number that `b[from..to]` spells, least significant byte first.
fn read_le(b: &[u8], from: usize, to: usize) -> (n: u64)
    requires
        from <= to <= b.len(),
        to - from <= 8,
    ensures
        n == le_value(b@.subrange(from as int, to as int)),
    decreases to - from,
{
    if from == to {
        return 0;
    }
    let rest = read_le(b, from + 1, to);
    let ghost s = b@.subrange(from as int, to as int);
    assert(s.drop_first() =~= b@.subrange(from + 1, to as int));
    proof {
        lemma_le_value_bound(s.drop_first());
        reveal_with_fuel(byte_cap, 8);
    }
    b[from] as u64 + 256 * rest
}

// ------------------------------------------------------------------ the table

/// One table entry: where the chunk's compressed bytes start, and both lengths.
#[derive(Clone, Copy, Debug, PartialEq, Eq, Structural)]
pub struct ChunkEntry {
    pub off: u64,
    pub clen: u32,
    pub rlen: u32,
}

/// The 16 bytes of a table entry.
pub open spec fn entry_bytes(e: ChunkEntry) -> Seq<u8> {
    le_bytes(e.off as nat, 8) + le_bytes(e.clen as nat, 4) + le_bytes(e.rlen as nat, 4)
}

/// The bytes of a table.
pub open spec fn table_bytes(t: Seq<ChunkEntry>) -> Seq<u8>
    decreases t.len(),
{
    if t.len() == 0 {
        Seq::empty()
    } else {
        table_bytes(t.drop_last()) + entry_bytes(t.last())
    }
}

/// The header of a container whose table is `t`: magic, version, chunk size, count, table.
pub open spec fn header_spec(t: Seq<ChunkEntry>) -> Seq<u8> {
    magic_spec() + le_bytes(VERSION as nat, 4) + le_bytes(CHUNK_BYTES as nat, 4) + le_bytes(
        t.len(),
        8,
    ) + table_bytes(t)
}

/// Number of chunks of a file of `size` bytes.
pub open spec fn chunk_count_spec(size: nat) -> nat {
    (size + CHUNK_BYTES - 1) as nat / (CHUNK_BYTES as nat)
}

/// Number of chunks of a file of `size` bytes (`div_ceil`).
pub fn chunk_count(size: u64) -> (n: u64)
    ensures
        n == chunk_count_spec(size as nat),
{
    let q = size / CHUNK_BYTES;
    let r = size % CHUNK_BYTES;
    assert((size + CHUNK_BYTES - 1) as nat / (CHUNK_BYTES as nat) == q + (if r == 0 {
        0int
    } else {
        1int
    })) by (nonlinear_arith)
        requires
            q == size / 0x40_0000,
            r == size % 0x40_0000,
            CHUNK_BYTES == 0x40_0000,
    ;
    if r == 0 {
        q
    } else {
        q + 1
    }
}

/// Length of the header of a container with `count` chunks.
pub open spec fn header_len_spec(count: nat) -> nat {
    (PREAMBLE + ENTRY * count) as nat
}

/// A recorded chunk (every real chunk has raw bytes; blank entries have none).
pub open spec fn placed(e: ChunkEntry) -> bool {
    e.rlen != 0
}

/// The layout of a container: its data ends after the header, every recorded chunk lies
/// between the header and the end of the data, and no two recorded chunks overlap.
pub open spec fn layout_ok(t: Seq<ChunkEntry>, end: u64) -> bool {
    &&& header_len_spec(t.len()) <= end
    &&& forall|i: int|
        0 <= i < t.len() && placed(#[trigger] t[i]) ==> header_len_spec(t.len()) <= t[i].off
            && t[i].off + t[i].clen <= end
    &&& forall|i: int, j: int|
        0 <= i < t.len() && 0 <= j < t.len() && i != j && placed(#[trigger] t[i]) && placed(
            #[trigger] t[j],
        ) ==> t[i].off + t[i].clen <= t[j].off || t[j].off + t[j].clen <= t[i].off
}

/// The table of a container being written, and where the next chunk's data goes.
pub struct ChunkTable {
    entries: Vec<ChunkEntry>,
    data_off: u64,
}

impl ChunkTable {
    /// The entries, by chunk number.
    pub closed spec fn entries(&self) -> Seq<ChunkEntry> {
        self.entries@
    }

    /// Where the next finished chunk will be written (after the last one so far).
    pub closed spec fn data_end(&self) -> u64 {
        self.data_off
    }

    #[verifier::type_invariant]
    closed spec fn inv(&self) -> bool {
        layout_ok(self.entries@, self.data_off)
    }

    /// An empty table for a file of `size` bytes: one blank entry per chunk, data starting
    /// right after the header.
    pub fn new(size: u64) -> (t: ChunkTable)
        requires
            chunk_count_spec(size as nat) <= usize::MAX,
        ensures
            t.entries().len() == chunk_count_spec(size as nat),
            forall|i: int| 0 <= i < t.entries().len() ==> #[trigger] t.entries()[i] == (
            ChunkEntry { off: 0, clen: 0, rlen: 0 }),
            t.data_end() == header_len_spec(chunk_count_spec(size as nat)),
            layout_ok(t.entries(), t.data_end()),
    {
        let count = chunk_count(size);
        let mut entries: Vec<ChunkEntry> = Vec::new();
        let mut i: u64 = 0;
        while i < count
            invariant
                0 <= i <= count,
                count == chunk_count_spec(size as nat),
                count <= usize::MAX,
                entries@.len() == i,
                forall|k: int| 0 <= k < i ==> #[trigger] entries@[k] == (ChunkEntry {
                    off: 0,
                    clen: 0,
                    rlen: 0,
                }),
            decreases count - i,
        {
            entries.push(ChunkEntry { off: 0, clen: 0, rlen: 0 });
            i += 1;
        }
        assert(count <= 0x400_0000_0001) by (nonlinear_arith)
            requires
                count == (size + 0x40_0000 - 1) as nat / 0x40_0000nat,
                size <= 0xffff_ffff_ffff_ffffu64,
        ;
        ChunkTable { entries, data_off: PREAMBLE + ENTRY * count }
    }

    /// Length of the container so far: where the data ends.
    pub fn data_end_now(&self) -> (n: u64)
        ensures
            n == self.data_end(),
    {
        self.data_off
    }

    /// Number of chunks.
    pub fn count(&self) -> (n: usize)
        ensures
            n == self.entries().len(),
    {
        self.entries.len()
    }

    /// Records that chunk `idx` was compressed to `clen` bytes from `rlen` raw bytes; its
    /// data goes at the current end, which it moves. Returns the offset to write it at.
    pub fn place(&mut self, idx: usize, clen: u32, rlen: u32) -> (off: u64)
        requires
            idx < old(self).entries().len(),
            old(self).data_end() + clen <= u64::MAX,
        ensures
            off == old(self).data_end(),
            final(self).data_end() == old(self).data_end() + clen,
            final(self).entries() == old(self).entries().update(
                idx as int,
                ChunkEntry { off, clen, rlen },
            ),
            layout_ok(final(self).entries(), final(self).data_end()),
    {
        proof {
            use_type_invariant(&*self);
        }
        let off = self.data_off;
        let ghost old_es = self.entries@;
        self.data_off = off + clen as u64;
        let mut es: Vec<ChunkEntry> = Vec::new();
        std::mem::swap(&mut es, &mut self.entries);
        es.set(idx, ChunkEntry { off, clen, rlen });
        proof {
            let t = es@;
            let end = (off + clen) as u64;
            assert(t.len() == old_es.len());
            assert forall|i: int|
                0 <= i < t.len() && placed(#[trigger] t[i]) implies header_len_spec(t.len())
                <= t[i].off && t[i].off + t[i].clen <= end by {
                if i != idx {
                    assert(t[i] == old_es[i]);
                }
            }
            assert forall|i: int, j: int|
                0 <= i < t.len() && 0 <= j < t.len() && i != j && placed(#[trigger] t[i]) && placed(
                    #[trigger] t[j],
                ) implies t[i].off + t[i].clen <= t[j].off || t[j].off + t[j].clen <= t[i].off by {
                if i != idx && j != idx {
                    assert(t[i] == old_es[i] && t[j] == old_es[j]);
                } else if i == idx {
                    assert(t[j] == old_es[j]);
                } else {
                    assert(t[i] == old_es[i]);
                }
            }
        }
        self.entries = es;
        off
    }

    /// The header to write at the start of the finished container; an error naming the
    /// first chunk (counting from 1) that was never recorded.
    pub fn finish(&self) -> (r: Result<Vec<u8>, SnapError>)
        requires
            self.entries().len() < 0x1000_0000_0000_0000,
        ensures
            layout_ok(self.entries(), self.data_end()),
            match r {
                Ok(h) => h@ == header_spec(self.entries()) && forall|i: int|
                    0 <= i < self.entries().len() ==> #[trigger] self.entries()[i].rlen != 0,
                Err(e) => exists|i: int|
                    0 <= i < self.entries().len() && #[trigger] self.entries()[i].rlen == 0 && (
                    forall|k: int| 0 <= k < i ==> #[trigger] self.entries()[k].rlen != 0) && e@
                        == "有分块没有写完（第 "@ + digits_spec((i + 1) as nat) + " 块）"@,
            },
    {
        proof {
            use_type_invariant(self);
        }
        let n = self.entries.len();
        let mut i: usize = 0;
        while i < n
            invariant
                0 <= i <= n,
                n == self.entries@.len(),
                layout_ok(self.entries@, self.data_off),
                forall|k: int| 0 <= k < i ==> #[trigger] self.entries@[k].rlen != 0,
            decreases n - i,
        {
            if self.entries[i].rlen == 0 {
                let num = dec_u64(i as u64 + 1);
                let mut msg = cat("有分块没有写完（第 ", num.as_str());
                append_str(&mut msg, " 块）");
                let e = SnapError::from_string(msg);
                assert(self.entries()[i as int].rlen == 0);
                assert(e@ == "有分块没有写完（第 "@ + digits_spec((i + 1) as nat) + " 块）"@);
                return Err(e);
            }
            i += 1;
        }
        let mut head = magic();
        push_le(&mut head, VERSION as u64, 4);
        push_le(&mut head, CHUNK_BYTES, 4);
        push_le(&mut head, n as u64, 8);
        let ghost pre = head@;
        let mut k: usize = 0;
        assert(self.entries@.take(0) =~= Seq::<ChunkEntry>::empty());
        assert(table_bytes(Seq::<ChunkEntry>::empty()) =~= Seq::<u8>::empty());
        while k < n
            invariant
                0 <= k <= n,
                n == self.entries@.len(),
                head@ == pre + table_bytes(self.entries@.take(k as int)),
            decreases n - k,
        {
            let e = self.entries[k];
            push_le(&mut head, e.off, 8);
            push_le(&mut head, e.clen as u64, 4);
            push_le(&mut head, e.rlen as u64, 4);
            assert(self.entries@.take(k + 1).drop_last() =~= self.entries@.take(k as int));
            assert(head@ =~= pre + table_bytes(self.entries@.take(k + 1)));
            k += 1;
        }
        assert(self.entries@.take(n as int) =~= self.entries@);
        Ok(head)
    }
}

// ------------------------------------------------------------------ reading a container

/// Whether the first bytes of an object are the container magic.
pub fn is_chunked(first: &[u8]) -> (b: bool)
    ensures
        b == (first@ == magic_spec()),
{
    let m = magic();
    if first.len() != 8 {
        return false;
    }
    let mut i: usize = 0;
    while i < 8
        invariant
            0 <= i <= 8,
            first@.len() == 8,
            m@ == magic_spec(),
            forall|k: int| 0 <= k < i ==> first@[k] == m@[k],
        decreases 8 - i,
    {
        if first[i] != m[i] {
            return false;
        }
        i += 1;
    }
    assert(first@ =~= magic_spec());
    true
}

/// The chunk count a container's 24-byte preamble gives; an error if it lacks the magic.
pub fn parse_preamble(head: &[u8]) -> (r: Result<u64, SnapError>)
    requires
        head@.len() == PREAMBLE,
    ensures
        head@.take(8) == magic_spec() ==> (r matches Ok(n) && n == le_value(head@.subrange(
            16,
            24,
        ))),
        head@.take(8) != magic_spec() ==> (r matches Err(e) && e@ == "不是分块对象"@),
{
    let first = &head[0..8];
    assert(first@ == head@.take(8));
    if !is_chunked(first) {
        return Err(SnapError::new("不是分块对象"));
    }
    Ok(read_le(head, 16, 24))
}

/// A 16-byte table entry.
pub fn parse_entry(ent: &[u8]) -> (e: ChunkEntry)
    requires
        ent@.len() == ENTRY,
    ensures
        e.off == le_value(ent@.subrange(0, 8)),
        e.clen == le_value(ent@.subrange(8, 12)),
        e.rlen == le_value(ent@.subrange(12, 16)),
{
    let off = read_le(ent, 0, 8);
    let clen = read_le(ent, 8, 12);
    let rlen = read_le(ent, 12, 16);
    proof {
        lemma_le_value_bound(ent@.subrange(8, 12));
        lemma_le_value_bound(ent@.subrange(12, 16));
        reveal_with_fuel(byte_cap, 5);
    }
    ChunkEntry { off, clen: clen as u32, rlen: rlen as u32 }
}

/// Parsing the bytes of an entry gives the entry back.
pub proof fn lemma_entry_roundtrip(e: ChunkEntry)
    ensures
        le_value(entry_bytes(e).subrange(0, 8)) == e.off,
        le_value(entry_bytes(e).subrange(8, 12)) == e.clen,
        le_value(entry_bytes(e).subrange(12, 16)) == e.rlen,
{
    reveal_with_fuel(byte_cap, 9);
    lemma_le_bytes_len(e.off as nat, 8);
    lemma_le_bytes_len(e.clen as nat, 4);
    lemma_le_bytes_len(e.rlen as nat, 4);
    let b = entry_bytes(e);
    assert(b.subrange(0, 8) =~= le_bytes(e.off as nat, 8));
    assert(b.subrange(8, 12) =~= le_bytes(e.clen as nat, 4));
    assert(b.subrange(12, 16) =~= le_bytes(e.rlen as nat, 4));
    lemma_le_roundtrip(e.off as nat, 8);
    lemma_le_roundtrip(e.clen as nat, 4);
    lemma_le_roundtrip(e.rlen as nat, 4);
}

/// A written header reads back: it starts with the magic, its preamble gives the chunk
/// count, and table entry `i` sits at `PREAMBLE + 16 i` and parses to entry `i`.
pub proof fn lemma_header_roundtrip(t: Seq<ChunkEntry>, i: int)
    requires
        t.len() < 0x1000_0000_0000_0000,
        0 <= i < t.len(),
    ensures
        header_spec(t).len() == PREAMBLE + ENTRY * t.len(),
        header_spec(t).take(8) == magic_spec(),
        le_value(header_spec(t).subrange(16, 24)) == t.len(),
        header_spec(t).subrange(PREAMBLE + ENTRY * i, PREAMBLE + ENTRY * (i + 1)) == entry_bytes(
            t[i],
        ),
{
    reveal_with_fuel(byte_cap, 9);
    lemma_le_bytes_len(VERSION as nat, 4);
    lemma_le_bytes_len(CHUNK_BYTES as nat, 4);
    lemma_le_bytes_len(t.len(), 8);
    lemma_table_bytes(t, i);
    let h = header_spec(t);
    let pre = magic_spec() + le_bytes(VERSION as nat, 4) + le_bytes(CHUNK_BYTES as nat, 4)
        + le_bytes(t.len(), 8);
    assert(pre.len() == 24);
    assert(h =~= pre + table_bytes(t));
    assert(h.take(8) =~= magic_spec());
    assert(h.subrange(16, 24) =~= le_bytes(t.len(), 8));
    lemma_le_roundtrip(t.len(), 8);
    assert(h.subrange(PREAMBLE + ENTRY * i, PREAMBLE + ENTRY * (i + 1)) =~= table_bytes(t).subrange(
        ENTRY * i,
        ENTRY * (i + 1),
    ));
}

/// Entry `i` of a table's bytes is at `16 i`.
proof fn lemma_table_bytes(t: Seq<ChunkEntry>, i: int)
    requires
        0 <= i < t.len(),
    ensures
        table_bytes(t).len() == ENTRY * t.len(),
        table_bytes(t).subrange(ENTRY * i, ENTRY * (i + 1)) == entry_bytes(t[i]),
    decreases t.len(),
{
    let e = t.last();
    lemma_le_bytes_len(e.off as nat, 8);
    lemma_le_bytes_len(e.clen as nat, 4);
    lemma_le_bytes_len(e.rlen as nat, 4);
    if t.len() == 1 {
        assert(table_bytes(t.drop_last()) =~= Seq::<u8>::empty());
        assert(table_bytes(t) =~= entry_bytes(e));
    } else {
        let u = t.drop_last();
        if i < t.len() - 1 {
            lemma_table_bytes(u, i);
            assert(table_bytes(t).subrange(ENTRY * i, ENTRY * (i + 1)) =~= table_bytes(u).subrange(
                ENTRY * i,
                ENTRY * (i + 1),
            ));
        } else {
            lemma_table_bytes(u, 0);
            assert(table_bytes(t).subrange(ENTRY * i, ENTRY * (i + 1)) =~= entry_bytes(e));
        }
    }
}

// ------------------------------------------------------------------ compression

/// The zlib stream that flate2 writes for `data` at `level`.
pub uninterp spec fn zlib_deflate(data: Seq<u8>, level: u32) -> Seq<u8>;

/// What flate2 reads from a zlib stream: the decoded bytes, or the text of its error.
pub uninterp spec fn zlib_inflate(data: Seq<u8>) -> Result<Seq<u8>, Seq<char>>;

/// A zlib stream decodes to `data`.
pub open spec fn inflates_to(stream: Seq<u8>, data: Seq<u8>) -> bool {
    zlib_inflate(stream) == Ok::<Seq<u8>, Seq<char>>(data)
}

/// `flate2::write::ZlibEncoder` over a `Vec`, fed `data` and finished.
/// Claimed: it succeeds (writing into a `Vec` cannot fail, and flate2's miniz backend
/// reports an error only for a stream state or parameter that a level of at most 9 never
/// gives); the stream is `zlib_deflate(data, level)`, and it decodes back to `data`.
#[verifier::external_body]
pub(crate) fn zlib_compress(data: &[u8], level: u32) -> (r: Result<Vec<u8>, String>)
    requires
        level <= 9,
    ensures
        r is Ok,
        r matches Ok(v) ==> v@ == zlib_deflate(data@, level) && inflates_to(v@, data@),
{
    let mut enc = ZlibEncoder::new(Vec::with_capacity(data.len() / 2 + 64), Compression::new(level));
    enc.write_all(data).and_then(|_| enc.finish()).map_err(|e| e.to_string())
}

/// `flate2::read::ZlibDecoder` over `data`, read to the end.
/// Claimed: the result is `zlib_inflate(data)`, a function of the bytes alone.
#[verifier::external_body]
pub(crate) fn zlib_decompress(data: &[u8]) -> (r: Result<Vec<u8>, String>)
    ensures
        match r {
            Ok(v) => zlib_inflate(data@) == Ok::<Seq<u8>, Seq<char>>(v@),
            Err(e) => zlib_inflate(data@) == Err::<Seq<u8>, Seq<char>>(e@),
        },
{
    let mut raw = Vec::new();
    ZlibDecoder::new(data).read_to_end(&mut raw).map(|_| raw).map_err(|e| e.to_string())
}

/// Compresses one chunk (or one small object) at `level`; should flate2 ever report an
/// error, it comes after "压缩失败: ".
pub fn compress_chunk(raw: &[u8], level: u32) -> (r: Result<Vec<u8>, SnapError>)
    requires
        level <= 9,
    ensures
        r matches Ok(v) && v@ == zlib_deflate(raw@, level) && inflates_to(v@, raw@),
{
    match zlib_compress(raw, level) {
        Ok(v) => Ok(v),
        Err(e) => {
            let msg = cat("压缩失败: ", e.as_str());
            proof {
                reveal_strlit("压缩失败: ");
                assert(msg@.take(6) =~= "压缩失败: "@);
            }
            Err(SnapError::from_string(msg))
        },
    }
}

/// What reading back one chunk whose table entry says `rlen` raw bytes gives: the decoded
/// bytes; an error when the data does not decode ("对象解压失败: ..."), or decodes to
/// another length.
pub open spec fn inflate_chunk_spec(comp: Seq<u8>, rlen: u32) -> Result<Seq<u8>, Seq<char>> {
    match zlib_inflate(comp) {
        Ok(raw) => if raw.len() == rlen {
            Ok(raw)
        } else {
            Err("对象内容长度不对（期望 "@ + digits_spec(rlen as nat) + "，实际 "@ + digits_spec(
                raw.len(),
            ) + "）"@)
        },
        Err(m) => Err("对象解压失败: "@ + m),
    }
}

/// Decompresses one chunk whose table entry says `rlen` raw bytes (see `inflate_chunk_spec`).
pub fn inflate_chunk(comp: &[u8], rlen: u32) -> (r: Result<Vec<u8>, SnapError>)
    ensures
        inflate_chunk_spec(comp@, rlen) == (match r {
            Ok(v) => Ok::<Seq<u8>, Seq<char>>(v@),
            Err(e) => Err::<Seq<u8>, Seq<char>>(e@),
        }),
{
    match zlib_decompress(comp) {
        Err(m) => Err(SnapError::from_string(cat("对象解压失败: ", m.as_str()))),
        Ok(raw) => {
            if raw.len() as u64 == rlen as u64 {
                Ok(raw)
            } else {
                let want = dec_u64(rlen as u64);
                let got = dec_u64(raw.len() as u64);
                let mut msg = cat("对象内容长度不对（期望 ", want.as_str());
                append_str(&mut msg, "，实际 ");
                append_str(&mut msg, got.as_str());
                append_str(&mut msg, "）");
                Err(SnapError::from_string(msg))
            }
        },
    }
}

/// A chunk reads back as what was compressed: whatever `compress_chunk` made of `raw`, read
/// back with `raw`'s length as its table entry, gives `raw` again.
pub proof fn lemma_chunk_roundtrip(raw: Seq<u8>, level: u32)
    requires
        raw.len() <= u32::MAX,
        inflates_to(zlib_deflate(raw, level), raw),
    ensures
        inflate_chunk_spec(zlib_deflate(raw, level), raw.len() as u32) == Ok::<Seq<u8>, Seq<char>>(
            raw,
        ),
{
}

/// Chunk `i` of `content`: its bytes from `i` times the chunk size, at most a chunk's worth.
pub open spec fn chunk_piece(content: Seq<u8>, i: int) -> Seq<u8> {
    let lo = i * CHUNK_BYTES;
    let hi = if (i + 1) * CHUNK_BYTES <= content.len() {
        (i + 1) * CHUNK_BYTES
    } else {
        content.len() as int
    };
    content.subrange(lo, hi)
}

/// The compressed bytes that table entry `i` of the container `f` points at.
pub open spec fn stored_piece(f: Seq<u8>, i: int) -> Seq<u8> {
    let at = PREAMBLE + ENTRY * i;
    let off = le_value(f.subrange(at, at + 8));
    let clen = le_value(f.subrange(at + 8, at + 12));
    f.subrange(off as int, (off + clen) as int)
}

/// The raw length that table entry `i` of the container `f` records.
pub open spec fn stored_rlen(f: Seq<u8>, i: int) -> int {
    let at = PREAMBLE + ENTRY * i;
    le_value(f.subrange(at + 12, at + 16)) as int
}

/// What reading the first `n` chunks of the container `f` gives, chunk after chunk: each
/// entry parsed (`parse_entry`), its bytes decoded against its raw length
/// (`inflate_chunk`), and the results joined; the first error stops it.
pub open spec fn read_chunks(f: Seq<u8>, n: nat) -> Result<Seq<u8>, Seq<char>>
    decreases n,
{
    if n == 0 {
        Ok(Seq::empty())
    } else {
        match read_chunks(f, (n - 1) as nat) {
            Err(m) => Err(m),
            Ok(front) => match inflate_chunk_spec(
                stored_piece(f, n - 1),
                stored_rlen(f, n - 1) as u32,
            ) {
                Ok(raw) => Ok(front + raw),
                Err(m) => Err(m),
            },
        }
    }
}

/// The container `f` holds `content` as the table `t` describes: the header of `t` at its
/// start, and for each chunk the compressed stream `compress_chunk` makes at `level`, at
/// the entry's offset, with the chunk's length as the entry's raw length.
pub open spec fn holds_content(f: Seq<u8>, t: Seq<ChunkEntry>, content: Seq<u8>, level: u32) -> bool {
    &&& t.len() == chunk_count_spec(content.len())
    &&& header_spec(t).len() <= f.len()
    &&& f.take(header_spec(t).len() as int) == header_spec(t)
    &&& forall|i: int|
        0 <= i < t.len() ==> {
            &&& (#[trigger] t[i]).rlen == chunk_piece(content, i).len()
            &&& t[i].off + t[i].clen <= f.len()
            &&& f.subrange(t[i].off as int, t[i].off + t[i].clen) == zlib_deflate(
                chunk_piece(content, i),
                level,
            )
            &&& inflates_to(zlib_deflate(chunk_piece(content, i), level), chunk_piece(content, i))
        }
}

proof fn lemma_piece_bounds(len: nat, i: int)
    requires
        0 <= i < chunk_count_spec(len),
    ensures
        i * CHUNK_BYTES < len,
        (i + 1) * CHUNK_BYTES - i * CHUNK_BYTES == CHUNK_BYTES,
{
    assert(i * 0x40_0000 < len) by (nonlinear_arith)
        requires
            0 <= i,
            i < (len + 0x40_0000 - 1) / 0x40_0000,
    ;
}

/// A file of `len` bytes has just enough chunks: together they cover it, and one fewer
/// would not.
pub proof fn lemma_count_covers(len: nat)
    ensures
        chunk_count_spec(len) * CHUNK_BYTES >= len,
        chunk_count_spec(len) > 0 ==> (chunk_count_spec(len) - 1) * CHUNK_BYTES < len,
{
    if chunk_count_spec(len) > 0 {
        lemma_piece_bounds(len, chunk_count_spec(len) - 1);
    }
    let c = chunk_count_spec(len);
    assert(c * 0x40_0000 >= len) by (nonlinear_arith)
        requires
            c == (len + 0x40_0000 - 1) / 0x40_0000,
    ;
}

/// What `read_chunks` gives on a container that holds `content`: the bytes up to chunk `n`.
proof fn lemma_read_prefix(f: Seq<u8>, t: Seq<ChunkEntry>, content: Seq<u8>, level: u32, n: nat)
    requires
        holds_content(f, t, content, level),
        t.len() < 0x1000_0000_0000_0000,
        n <= t.len(),
    ensures
        read_chunks(f, n) == Ok::<Seq<u8>, Seq<char>>(content.take(
            if n * CHUNK_BYTES <= content.len() {
                n * CHUNK_BYTES
            } else {
                content.len() as int
            },
        )),
    decreases n,
{
    if n == 0 {
        assert(content.take(0) =~= Seq::<u8>::empty());
    } else {
        let i = n - 1;
        lemma_read_prefix(f, t, content, level, (n - 1) as nat);
        lemma_piece_bounds(content.len(), i);
        let h = header_spec(t);
        lemma_header_roundtrip(t, i);
        let at = PREAMBLE + ENTRY * i;
        lemma_prefix_bytes(f, h, at, at + 16);
        lemma_entry_roundtrip(t[i]);
        let eb = entry_bytes(t[i]);
        assert(f.subrange(at, at + 8) =~= eb.subrange(0, 8));
        assert(f.subrange(at + 8, at + 12) =~= eb.subrange(8, 12));
        assert(f.subrange(at + 12, at + 16) =~= eb.subrange(12, 16));
        let piece = chunk_piece(content, i);
        assert(stored_piece(f, i) == zlib_deflate(piece, level));
        assert(stored_rlen(f, i) == piece.len());
        assert(piece.len() <= CHUNK_BYTES);
        lemma_chunk_roundtrip(piece, level);
        let lo = i * CHUNK_BYTES;
        let hi = if n * CHUNK_BYTES <= content.len() {
            n * CHUNK_BYTES
        } else {
            content.len() as int
        };
        assert(content.take(lo) + piece =~= content.take(hi));
    }
}

/// A chunk container reads back as the content it was written from: when `f` holds
/// `content` as the table `t` describes (what `ChunkTable::finish`, `place` and
/// `compress_chunk` make of it), its preamble has the magic and gives `t`'s chunk count,
/// and reading all its chunks gives `content`.
pub proof fn lemma_container_reads_back(f: Seq<u8>, t: Seq<ChunkEntry>, content: Seq<u8>, level: u32)
    requires
        holds_content(f, t, content, level),
        t.len() < 0x1000_0000_0000_0000,
    ensures
        f.take(8) == magic_spec(),
        le_value(f.subrange(16, 24)) == t.len(),
        read_chunks(f, t.len()) == Ok::<Seq<u8>, Seq<char>>(content),
{
    lemma_read_prefix(f, t, content, level, t.len());
    lemma_count_covers(content.len());
    assert(content.take(content.len() as int) =~= content);
    let h = header_spec(t);
    if t.len() > 0 {
        lemma_header_roundtrip(t, 0);
        lemma_prefix_bytes(f, h, 0, 8);
        lemma_prefix_bytes(f, h, 16, 24);
        assert(f.take(8) =~= f.subrange(0, 8));
        assert(h.take(8) =~= h.subrange(0, 8));
    } else {
        assert(content.len() == 0) by {
            lemma_count_covers(content.len());
        }
        lemma_empty_header();
        lemma_prefix_bytes(f, h, 0, 8);
        lemma_prefix_bytes(f, h, 16, 24);
        assert(f.take(8) =~= f.subrange(0, 8));
        assert(h.take(8) =~= h.subrange(0, 8));
    }
}

proof fn lemma_prefix_bytes(f: Seq<u8>, h: Seq<u8>, a: int, b: int)
    requires
        h.len() <= f.len(),
        f.take(h.len() as int) == h,
        0 <= a <= b <= h.len(),
    ensures
        f.subrange(a, b) == h.subrange(a, b),
{
    assert forall|j: int| a <= j < b implies #[trigger] f[j] == h[j] by {
        assert(f.take(h.len() as int)[j] == f[j]);
    }
    assert(f.subrange(a, b) =~= h.subrange(a, b));
}

proof fn lemma_empty_header()
    ensures
        header_spec(Seq::<ChunkEntry>::empty()).len() == PREAMBLE,
        header_spec(Seq::<ChunkEntry>::empty()).take(8) == magic_spec(),
        le_value(header_spec(Seq::<ChunkEntry>::empty()).subrange(16, 24)) == 0,
{
    let t = Seq::<ChunkEntry>::empty();
    reveal_with_fuel(byte_cap, 9);
    lemma_le_bytes_len(VERSION as nat, 4);
    lemma_le_bytes_len(CHUNK_BYTES as nat, 4);
    lemma_le_bytes_len(0, 8);
    let h = header_spec(t);
    assert(table_bytes(t) =~= Seq::<u8>::empty());
    assert(h.take(8) =~= magic_spec());
    assert(h.subrange(16, 24) =~= le_bytes(0, 8));
    lemma_le_roundtrip(0, 8);
}

// ------------------------------------------------------------------ worker threads

/// How many workers compress chunks: `SNAP_THREADS` when it holds a number (trimmed),
/// clamped to 1..=64; else the machine's parallelism (4 when unknown), clamped to 1..=8.
pub open spec fn threads_spec(env: Option<Seq<char>>, available: Option<usize>) -> int {
    let from_env: Option<int> = match env {
        Some(v) => match parse_int_spec(trim_spec(v), false) {
            Some(n) => if n <= usize::MAX {
                Some(n)
            } else {
                None
            },
            None => None,
        },
        None => None,
    };
    match from_env {
        Some(n) => if n < 1 {
            1
        } else if n > 64 {
            64
        } else {
            n
        },
        None => {
            let a: int = match available {
                Some(a) => a as int,
                None => 4,
            };
            if a < 1 {
                1
            } else if a > 8 {
                8
            } else {
                a
            }
        },
    }
}

/// The number of compression workers.
pub fn thread_count(env: Option<&str>, available: Option<usize>) -> (n: usize)
    ensures
        n == threads_spec(
            match env {
                Some(s) => Some(s@),
                None => None,
            },
            available,
        ),
{
    let parsed: Option<u64> = match env {
        Some(v) => {
            let t = trim(v);
            parse_u64(t.as_str())
        },
        None => None,
    };
    match parsed {
        Some(n) if n <= usize::MAX as u64 => {
            if n < 1 {
                1
            } else if n > 64 {
                64
            } else {
                n as usize
            }
        },
        _ => {
            let a: usize = match available {
                Some(a) => a,
                None => 4,
            };
            if a < 1 {
                1
            } else if a > 8 {
                8
            } else {
                a
            }
        },
    }
}

} // verus!
