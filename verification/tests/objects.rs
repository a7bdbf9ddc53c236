use snap::chunk::inflate_chunk;
use snap::digest::sha1_hex;
use snap::object::{
    encode_object, level_for, pick_level, probe_offset, probe_sample, restore_object,
};

#[test]
fn level_by_size() {
    assert_eq!(level_for(0), 6);
    assert_eq!(level_for((4 << 20) - 1), 6);
    assert_eq!(level_for(4 << 20), 1);
}

#[test]
fn probe_offsets_spread_over_file() {
    assert_eq!(probe_offset(1000, 5), 0);
    let size = 16u64 << 20;
    assert_eq!(probe_offset(size, 0), 0);
    assert_eq!(probe_offset(size, 15), size - (64 << 10));
    assert_eq!(probe_offset(size, 1), (size - (64 << 10)) / 15);
}

#[test]
fn median_rule_picks_store() {
    let size = 100u64 << 20;
    // no samples, or a small file: by size
    assert_eq!(pick_level(size, &[]), 1);
    assert_eq!(pick_level(1 << 20, &[(1000, 1000)]), 6);
    // most segments save under a tenth: store
    assert_eq!(pick_level(size, &[(990, 1000), (300, 1000), (950, 1000)]), 0);
    // a saving of exactly a tenth counts as under
    assert_eq!(pick_level(size, &[(900, 1000)]), 0);
    // the median saves more: compress
    assert_eq!(pick_level(size, &[(990, 1000), (300, 1000), (200, 1000)]), 1);
    // even count: the upper middle decides
    assert_eq!(pick_level(size, &[(990, 1000), (300, 1000)]), 1);
    assert_eq!(pick_level(size, &[(990, 1000), (950, 1000), (300, 1000), (100, 1000)]), 1);
    assert_eq!(pick_level(size, &[(990, 1000), (950, 1000), (960, 1000), (100, 1000)]), 0);
}

#[test]
fn probe_samples() {
    assert_eq!(probe_sample(&[0u8; 1023]), None);
    let s = probe_sample(&vec![b'a'; 4096]).unwrap();
    assert_eq!(s.1, 4096);
    assert!(s.0 < 200);
}

#[test]
fn small_object_encoding() {
    let data = b"single stream".to_vec();
    let (name, stored) = encode_object(&data, 6).unwrap();
    assert_eq!(name, sha1_hex(&data));
    assert_eq!(name.len(), 40);
    assert_eq!(inflate_chunk(&stored, data.len() as u32).unwrap(), data);
}

#[test]
fn stored_objects_restore() {
    for data in [Vec::new(), b"single stream".to_vec(), (0..=255u8).collect::<Vec<u8>>()] {
        let (name, stored) = encode_object(&data, 6).unwrap();
        assert_eq!(restore_object(&name, &stored).unwrap(), data);
    }
    let e = restore_object("0123456789abcdef", b"not zlib").unwrap_err().message();
    assert!(e.starts_with("对象 01234567… 解压失败: "), "{e}");
    let e = restore_object("abc", b"").unwrap_err().message();
    assert!(e.starts_with("对象 abc… 解压失败: "), "{e}");
}
