use snap::chunk::{
    chunk_count, compress_chunk, inflate_chunk, is_chunked, magic, parse_entry,
    parse_preamble, thread_count, ChunkTable, CHUNK_BYTES, CHUNK_MIN_BYTES,
};
use snap::digest::{sha1_hex, ContentHasher};

#[test]
fn header_roundtrip() {
    let size = 9 * 1024 * 1024u64;
    let mut t = ChunkTable::new(size);
    assert_eq!(t.count(), 3);
    assert_eq!(t.data_end_now(), 24 + 16 * 3);
    let o1 = t.place(1, 100, 4 << 20);
    let o0 = t.place(0, 50, 4 << 20);
    assert_eq!(t.finish().unwrap_err().message(), "有分块没有写完（第 3 块）");
    let o2 = t.place(2, 7, 1 << 20);
    assert_eq!((o1, o0, o2), (72, 172, 222));
    assert_eq!(t.data_end_now(), 229);
    let head = t.finish().unwrap();
    assert_eq!(head.len(), 24 + 48);
    assert!(is_chunked(&head[..8]));
    assert_eq!(&head[..8], b"SNPCHUNK");
    assert_eq!(&head[8..12], &1u32.to_le_bytes());
    assert_eq!(&head[12..16], &(4u32 << 20).to_le_bytes());
    assert_eq!(parse_preamble(&head[..24]).unwrap(), 3);
    let e0 = parse_entry(&head[24..40]);
    assert_eq!((e0.off, e0.clen, e0.rlen), (172, 50, 4 << 20));
    let e2 = parse_entry(&head[56..72]);
    assert_eq!((e2.off, e2.clen, e2.rlen), (222, 7, 1 << 20));
}

#[test]
fn preamble_needs_magic() {
    let mut head = vec![0u8; 24];
    assert_eq!(parse_preamble(&head).unwrap_err().message(), "不是分块对象");
    head[..8].copy_from_slice(&magic());
    head[16] = 5;
    assert_eq!(parse_preamble(&head).unwrap(), 5);
    assert!(!is_chunked(b"SNPCHUNX"));
    assert!(!is_chunked(b"SNP"));
}

#[test]
fn chunk_counts() {
    assert_eq!(chunk_count(0), 0);
    assert_eq!(chunk_count(1), 1);
    assert_eq!(chunk_count(CHUNK_BYTES), 1);
    assert_eq!(chunk_count(CHUNK_BYTES + 1), 2);
    assert_eq!(CHUNK_MIN_BYTES, 8 << 20);
}

#[test]
fn compression_roundtrip_and_length_check() {
    let raw: Vec<u8> = b"hello chunked world\n".repeat(1000);
    let c = compress_chunk(&raw, 6).unwrap();
    assert!(c.len() < raw.len());
    assert_eq!(inflate_chunk(&c, raw.len() as u32).unwrap(), raw);
    let e = inflate_chunk(&c, 5).unwrap_err();
    assert_eq!(e.message(), format!("对象内容长度不对（期望 5，实际 {}）", raw.len()));
    let stored = compress_chunk(&raw, 0).unwrap();
    assert!(stored.len() > raw.len());
    assert_eq!(inflate_chunk(&stored, raw.len() as u32).unwrap(), raw);
    let bad = inflate_chunk(b"not zlib", 3).unwrap_err();
    assert!(bad.message().starts_with("对象解压失败: "), "{}", bad.message());
}

#[test]
fn large_file_chunked_roundtrip() {
    let mut bin = vec![0u8; 12 * 1024 * 1024];
    let mut seed: u64 = 0x1234_5678;
    for b in bin.iter_mut() {
        seed = seed.wrapping_mul(6364136223846793005).wrapping_add(1);
        *b = (seed >> 33) as u8;
    }
    let text: Vec<u8> = "hello chunked world\n".repeat(12 * 1024 * 1024 / 20).into_bytes();
    for (data, level) in [(&bin, 0u32), (&text, 1u32)] {
        let mut table = ChunkTable::new(data.len() as u64);
        let mut hasher = ContentHasher::new();
        let mut body: Vec<(u64, Vec<u8>)> = Vec::new();
        for (i, raw) in data.chunks(CHUNK_BYTES as usize).enumerate() {
            hasher.update(raw);
            let c = compress_chunk(raw, level).unwrap();
            let off = table.place(i, c.len() as u32, raw.len() as u32);
            body.push((off, c));
        }
        let head = table.finish().unwrap();
        let mut file = vec![0u8; table.data_end_now() as usize];
        file[..head.len()].copy_from_slice(&head);
        for (off, c) in &body {
            file[*off as usize..*off as usize + c.len()].copy_from_slice(c);
        }
        assert_eq!(hasher.finish_hex(), sha1_hex(data), "分块不影响对象命名");
        let count = parse_preamble(&file[..24]).unwrap() as usize;
        let mut back = Vec::new();
        for i in 0..count {
            let e = parse_entry(&file[24 + 16 * i..40 + 16 * i]);
            let c = &file[e.off as usize..e.off as usize + e.clen as usize];
            back.extend_from_slice(&inflate_chunk(c, e.rlen).unwrap());
        }
        assert_eq!(&back, data, "分块存储必须逐字节还原");
    }
}

#[test]
fn thread_count_is_configurable() {
    assert_eq!(thread_count(Some("2"), Some(16)), 2);
    assert_eq!(thread_count(Some(" 3 "), None), 3);
    assert_eq!(thread_count(Some("0"), None), 1);
    assert_eq!(thread_count(Some("500"), None), 64);
    assert_eq!(thread_count(Some("x"), Some(16)), 8);
    assert_eq!(thread_count(None, Some(3)), 3);
    assert_eq!(thread_count(None, None), 4);
    assert_eq!(thread_count(Some("-1"), Some(2)), 2);
}
