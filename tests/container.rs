use std::io::Write;

use tmod_extract::container::read_header;
use tmod_extract::error::ExtractError;
use tmod_extract::extract::{
    check_inflated, extract_all, extract_entry, read_container, ExtractedFile,
};
use tmod_extract::container::FileEntry;
use tmod_extract::varint::encode_7bit_length;

fn put_string(out: &mut Vec<u8>, s: &str) {
    out.extend_from_slice(&encode_7bit_length(s.len() as u32));
    out.extend_from_slice(s.as_bytes());
}

fn header_bytes(magic: &[u8], version: &str, name: &str, mod_version: &str, count: i32) -> Vec<u8> {
    let mut out = magic.to_vec();
    put_string(&mut out, version);
    out.extend((0..20u8).map(|i| i.wrapping_mul(7)));
    out.extend((0..=255u8).rev());
    out.extend_from_slice(&1234u32.to_le_bytes());
    put_string(&mut out, name);
    put_string(&mut out, mod_version);
    out.extend_from_slice(&count.to_le_bytes());
    out
}

/// A container of the given entries: (name, uncompressed length, payload).
fn container(entries: &[(&str, i32, Vec<u8>)]) -> Vec<u8> {
    let mut out = header_bytes(b"TMOD", "1.4", "ExampleMod", "1.0", entries.len() as i32);
    for (name, uncompressed, payload) in entries {
        put_string(&mut out, name);
        out.extend_from_slice(&uncompressed.to_le_bytes());
        out.extend_from_slice(&(payload.len() as i32).to_le_bytes());
    }
    for (_, _, payload) in entries {
        out.extend_from_slice(payload);
    }
    out
}

fn deflate(b: &[u8]) -> Vec<u8> {
    let mut enc = flate2::write::DeflateEncoder::new(Vec::new(), flate2::Compression::best());
    enc.write_all(b).unwrap();
    enc.finish().unwrap()
}

fn pairs(files: &[ExtractedFile]) -> Vec<(String, Vec<u8>)> {
    files.iter().map(|f| (f.name.clone(), f.contents.clone())).collect()
}

#[test]
fn passthrough_single_entry() {
    let samples: Vec<Vec<u8>> = vec![vec![], vec![0], b"hello".to_vec(), (0..=255u8).cycle().take(1000).collect()];
    for b in samples {
        let data = container(&[("a.txt", b.len() as i32, b.clone())]);
        let files = extract_all(&data).unwrap();
        assert_eq!(pairs(&files), vec![("a.txt".to_string(), b)]);
    }
}

#[test]
fn compressed_entry_inflates() {
    let original: Vec<u8> = b"abcabcabcabcabcabcabcabcabcabcabcabcabcabc".repeat(10);
    let packed = deflate(&original);
    assert!(packed.len() < original.len());
    let data = container(&[("data.bin", original.len() as i32, packed)]);
    let files = extract_all(&data).unwrap();
    assert_eq!(pairs(&files), vec![("data.bin".to_string(), original)]);
}

#[test]
fn compressed_entry_size_mismatch() {
    let original: Vec<u8> = vec![7u8; 400];
    let packed = deflate(&original);
    let short = container(&[("x", 399, packed.clone())]);
    assert!(matches!(extract_all(&short), Err(ExtractError::SizeMismatch)));
    let long = container(&[("x", 401, packed)]);
    assert!(matches!(extract_all(&long), Err(ExtractError::SizeMismatch)));
}

#[test]
fn compressed_entry_corrupt() {
    let data = container(&[("x", 100, vec![0xFF, 0xFF, 0xFF, 0xFF])]);
    assert!(matches!(extract_all(&data), Err(ExtractError::Decompress)));
}

#[test]
fn check_inflated_outcomes() {
    assert_eq!(check_inflated(Some(vec![1, 2, 3]), 3), Ok(vec![1, 2, 3]));
    assert_eq!(check_inflated(Some(vec![1, 2, 3]), 2), Err(ExtractError::SizeMismatch));
    assert_eq!(check_inflated(Some(vec![]), -1), Err(ExtractError::SizeMismatch));
    assert_eq!(check_inflated(None, 3), Err(ExtractError::Decompress));
}

#[test]
fn bad_magic_rejected_first() {
    let data = header_bytes(b"XMOD", "1.4", "ExampleMod", "1.0", 0);
    assert!(matches!(read_header(&data), Err(ExtractError::BadMagic)));
    assert!(matches!(extract_all(b"XMOD"), Err(ExtractError::BadMagic)));
    assert!(matches!(extract_all(b"XMOD\xFF\xFF\xFF\xFF\xFF\xFF"), Err(ExtractError::BadMagic)));
}

#[test]
fn nested_entry_name_kept() {
    let data = container(&[("sub/dir/file.dat", 3, vec![1, 2, 3])]);
    let files = extract_all(&data).unwrap();
    assert_eq!(pairs(&files), vec![("sub/dir/file.dat".to_string(), vec![1, 2, 3])]);
}

#[test]
fn duplicate_names_all_kept_in_order() {
    let data = container(&[("same.txt", 5, b"first".to_vec()), ("same.txt", 6, b"second".to_vec())]);
    let files = extract_all(&data).unwrap();
    assert_eq!(
        pairs(&files),
        vec![
            ("same.txt".to_string(), b"first".to_vec()),
            ("same.txt".to_string(), b"second".to_vec()),
        ]
    );
    let mut tree = std::collections::HashMap::new();
    for f in files {
        tree.insert(f.name, f.contents);
    }
    assert_eq!(tree.len(), 1);
    assert_eq!(tree["same.txt"], b"second".to_vec());
}

#[test]
fn example_mod_end_to_end() {
    let icon: Vec<u8> = (0..100u8).collect();
    let info: Vec<u8> = br#"{"name":"ExampleMod","a":"aaaaaaaaaaaaaaaaaaaa"}"#.to_vec();
    assert_eq!(info.len(), 48);
    let mut info = info;
    info.extend_from_slice(b"\n\n");
    let packed = deflate(&info);
    assert!(packed.len() < 50);
    let data = container(&[("icon.png", 100, icon.clone()), ("info.json", 50, packed.clone())]);

    let c = read_container(&data).unwrap();
    assert_eq!(c.header.format_version, "1.4");
    assert_eq!(c.header.name, "ExampleMod");
    assert_eq!(c.header.version, "1.0");
    assert_eq!(c.header.entry_count, 2);
    assert_eq!(c.header.data_len, 1234);
    assert_eq!(c.header.hash.len(), 20);
    assert_eq!(c.header.signature.len(), 256);
    assert_eq!(c.entries.len(), 2);
    assert_eq!(c.entries[0].name, "icon.png");
    assert_eq!((c.entries[0].uncompressed_len, c.entries[0].compressed_len), (100, 100));
    assert_eq!(c.entries[1].name, "info.json");
    assert_eq!(c.entries[1].uncompressed_len, 50);
    assert_eq!(c.entries[1].compressed_len, packed.len() as i32);
    assert_eq!(c.payload_start, data.len() - 100 - packed.len());

    let files = extract_all(&data).unwrap();
    assert_eq!(
        pairs(&files),
        vec![("icon.png".to_string(), icon), ("info.json".to_string(), info)]
    );
}

#[test]
fn negative_entry_count() {
    let data = header_bytes(b"TMOD", "1.4", "m", "1", -1);
    assert!(matches!(read_header(&data), Err(ExtractError::NegativeEntryCount)));
}

#[test]
fn negative_payload_length() {
    let entry = FileEntry { name: "x".to_string(), uncompressed_len: -4, compressed_len: -4 };
    assert_eq!(extract_entry(&[0, 0, 0, 0], 0, &entry), Err(ExtractError::NegativeLength));
}

#[test]
fn truncated_payload() {
    let mut data = container(&[("a", 10, vec![9u8; 10])]);
    data.pop();
    assert!(matches!(extract_all(&data), Err(ExtractError::Truncated)));
}

#[test]
fn truncated_entry_table() {
    let data = header_bytes(b"TMOD", "1.4", "m", "1", 3);
    assert!(matches!(read_container(&data), Err(ExtractError::Truncated)));
}

#[test]
fn empty_container() {
    let data = header_bytes(b"TMOD", "", "", "", 0);
    assert!(extract_all(&data).unwrap().is_empty());
}
