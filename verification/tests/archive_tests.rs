use eq_archive::{load, Error};

use flate2::write::ZlibEncoder;
use flate2::Compression;
use std::io::Write;

/// Compresses one block payload as a zlib-wrapped deflate stream.
fn deflate(data: &[u8]) -> Vec<u8> {
    let mut enc = ZlibEncoder::new(Vec::new(), Compression::default());
    enc.write_all(data).unwrap();
    enc.finish().unwrap()
}

/// Builds an archive buffer. Each entry is (name_hash, plain chunks);
/// every chunk becomes one compressed block of that entry's chain.
/// Entries are laid out in the given order, so they are already sorted
/// by data offset.
fn build(entries: &[(u32, Vec<Vec<u8>>)]) -> Vec<u8> {
    let mut region: Vec<u8> = Vec::new();
    let mut records: Vec<(u32, u32, u32)> = Vec::new();
    for (crc, chunks) in entries {
        let pointer = 12 + region.len() as u32;
        let total: u32 = chunks.iter().map(|c| c.len() as u32).sum();
        for chunk in chunks {
            let comp = deflate(chunk);
            region.extend_from_slice(&(comp.len() as u32).to_le_bytes());
            region.extend_from_slice(&(chunk.len() as u32).to_le_bytes());
            region.extend_from_slice(&comp);
        }
        records.push((*crc, pointer, total));
    }
    let dir_ptr = 12 + region.len() as u32;
    let mut out: Vec<u8> = Vec::new();
    out.extend_from_slice(&dir_ptr.to_le_bytes());
    out.extend_from_slice(&0x20000u32.to_le_bytes());
    out.extend_from_slice(&1u32.to_le_bytes());
    out.extend_from_slice(&region);
    out.extend_from_slice(&(records.len() as u32).to_le_bytes());
    for (crc, pointer, total) in records {
        out.extend_from_slice(&crc.to_le_bytes());
        out.extend_from_slice(&pointer.to_le_bytes());
        out.extend_from_slice(&total.to_le_bytes());
    }
    out.extend_from_slice(b"STEVE");
    out.extend_from_slice(&0u32.to_le_bytes());
    out
}

/// The directory payload: a file count, then length-prefixed names,
/// each stored with a trailing NUL.
fn dir_payload(names: &[&str]) -> Vec<u8> {
    let mut out: Vec<u8> = Vec::new();
    out.extend_from_slice(&(names.len() as u32).to_le_bytes());
    for name in names {
        out.extend_from_slice(&((name.len() + 1) as u32).to_le_bytes());
        out.extend_from_slice(name.as_bytes());
        out.push(0);
    }
    out
}

/// A two-entry archive: entry 0 spans two blocks, entry 1 is the
/// directory naming both.
fn two_entry_archive() -> Vec<u8> {
    let dir = dir_payload(&["a.txt", "b.txt"]);
    build(&[
        (0xAAAA, vec![b"hello ".to_vec(), b"world".to_vec()]),
        (0xBBBB, vec![dir]),
    ])
}

#[test]
fn scenario_two_blocks_and_directory() {
    let archive = load(&two_entry_archive()).unwrap();
    assert_eq!(
        archive.filenames().unwrap(),
        vec!["a.txt".to_string(), "b.txt".to_string()]
    );
    let bytes = archive.get("A.TXT").unwrap().unwrap();
    assert_eq!(bytes, b"hello world".to_vec());
}

#[test]
fn filenames_count_and_stability() {
    let archive = load(&two_entry_archive()).unwrap();
    let first = archive.filenames().unwrap();
    let second = archive.filenames().unwrap();
    assert_eq!(first.len(), 2);
    assert_eq!(first, second);
}

#[test]
fn block_chain_sizes_sum_to_entry_size() {
    let archive = load(&two_entry_archive()).unwrap();
    assert_eq!(archive.entries.len(), 2);
    for entry in &archive.entries {
        let blocks = entry.blocks.as_ref().unwrap();
        let sum: u32 = blocks.iter().map(|b| b.uncompressed_size).sum();
        assert_eq!(sum, entry.uncompressed_size);
    }
    let first_blocks = archive.entries[0].blocks.as_ref().unwrap();
    assert_eq!(first_blocks.len(), 2);
}

#[test]
fn decompress_is_deterministic() {
    let archive = load(&two_entry_archive()).unwrap();
    let once = archive.entries[0].decompress().unwrap();
    let twice = archive.entries[0].decompress().unwrap();
    assert_eq!(once, twice);
    let via_get_1 = archive.get("a.txt").unwrap().unwrap();
    let via_get_2 = archive.get("a.txt").unwrap().unwrap();
    assert_eq!(via_get_1, via_get_2);
}

#[test]
fn get_ignores_ascii_case() {
    let archive = load(&two_entry_archive()).unwrap();
    let lower = archive.get("a.txt").unwrap().unwrap();
    let upper = archive.get("A.TXT").unwrap().unwrap();
    let mixed = archive.get("A.tXt").unwrap().unwrap();
    assert_eq!(lower, upper);
    assert_eq!(lower, mixed);
}

#[test]
fn get_unknown_name_is_not_found_not_error() {
    let archive = load(&two_entry_archive()).unwrap();
    let r = archive.get("nonexistent").unwrap();
    assert!(r.is_none());
}

#[test]
fn files_pairs_match_names_and_get() {
    let archive = load(&two_entry_archive()).unwrap();
    let names = archive.filenames().unwrap();
    let mut expected: Vec<(String, Vec<u8>)> = Vec::new();
    for name in &names {
        expected.push((name.clone(), archive.get(name).unwrap().unwrap()));
    }
    let archive_again = load(&two_entry_archive()).unwrap();
    let pairs = archive_again.files().unwrap();
    assert_eq!(pairs.len(), 2);
    assert_eq!(pairs, expected);
}

#[test]
fn directory_pointer_below_header_is_corrupt() {
    let mut data = two_entry_archive();
    data[0..4].copy_from_slice(&5u32.to_le_bytes());
    let r = load(&data);
    assert!(matches!(r, Err(Error::Parser)));
}

#[test]
fn oversized_block_is_corrupt() {
    // One entry whose single block claims more compressed bytes than
    // the data region holds.
    let mut region: Vec<u8> = Vec::new();
    region.extend_from_slice(&1000u32.to_le_bytes());
    region.extend_from_slice(&4u32.to_le_bytes());
    region.extend_from_slice(&[1, 2, 3]);
    let dir_ptr = 12 + region.len() as u32;
    let mut data: Vec<u8> = Vec::new();
    data.extend_from_slice(&dir_ptr.to_le_bytes());
    data.extend_from_slice(&0x20000u32.to_le_bytes());
    data.extend_from_slice(&1u32.to_le_bytes());
    data.extend_from_slice(&region);
    data.extend_from_slice(&1u32.to_le_bytes());
    data.extend_from_slice(&0xAAAAu32.to_le_bytes());
    data.extend_from_slice(&12u32.to_le_bytes());
    data.extend_from_slice(&4u32.to_le_bytes());
    data.extend_from_slice(b"STEVE");
    data.extend_from_slice(&0u32.to_le_bytes());
    let r = load(&data);
    assert!(matches!(r, Err(Error::Parser)));
}

#[test]
fn block_size_underflow_is_corrupt() {
    // A block declaring a larger uncompressed size than the entry has
    // left must fail, not wrap around.
    let payload = deflate(b"hello");
    let mut region: Vec<u8> = Vec::new();
    region.extend_from_slice(&(payload.len() as u32).to_le_bytes());
    region.extend_from_slice(&5u32.to_le_bytes());
    region.extend_from_slice(&payload);
    let dir_ptr = 12 + region.len() as u32;
    let mut data: Vec<u8> = Vec::new();
    data.extend_from_slice(&dir_ptr.to_le_bytes());
    data.extend_from_slice(&0x20000u32.to_le_bytes());
    data.extend_from_slice(&1u32.to_le_bytes());
    data.extend_from_slice(&region);
    data.extend_from_slice(&1u32.to_le_bytes());
    data.extend_from_slice(&0xAAAAu32.to_le_bytes());
    data.extend_from_slice(&12u32.to_le_bytes());
    data.extend_from_slice(&3u32.to_le_bytes());
    data.extend_from_slice(b"STEVE");
    data.extend_from_slice(&0u32.to_le_bytes());
    let r = load(&data);
    assert!(matches!(r, Err(Error::Parser)));
}

#[test]
fn truncated_buffer_is_corrupt() {
    let data = two_entry_archive();
    let r = load(&data[..data.len() - 6]);
    assert!(matches!(r, Err(Error::Parser)));
    let r2 = load(&data[..8]);
    assert!(matches!(r2, Err(Error::Parser)));
}

#[test]
fn directory_count_mismatch_is_error() {
    // Two entries, but the directory names only one of them.
    let dir = dir_payload(&["a.txt"]);
    let data = build(&[
        (0xAAAA, vec![b"hello".to_vec()]),
        (0xBBBB, vec![dir]),
    ]);
    let archive = load(&data).unwrap();
    assert!(matches!(archive.filenames(), Err(Error::Parser)));
    assert!(matches!(archive.get("a.txt"), Err(Error::Parser)));
}

#[test]
fn empty_archive_has_no_directory() {
    let data = build(&[]);
    let archive = load(&data).unwrap();
    assert_eq!(archive.entries.len(), 0);
    assert!(matches!(archive.filenames(), Err(Error::Parser)));
}

#[test]
fn malformed_deflate_surfaces_as_error() {
    // Sizes are consistent, but the directory entry's compressed bytes
    // are not a zlib stream; the failure surfaces at access, not load.
    let mut region: Vec<u8> = Vec::new();
    region.extend_from_slice(&4u32.to_le_bytes());
    region.extend_from_slice(&9u32.to_le_bytes());
    region.extend_from_slice(&[9, 9, 9, 9]);
    let dir_ptr = 12 + region.len() as u32;
    let mut data: Vec<u8> = Vec::new();
    data.extend_from_slice(&dir_ptr.to_le_bytes());
    data.extend_from_slice(&0x20000u32.to_le_bytes());
    data.extend_from_slice(&1u32.to_le_bytes());
    data.extend_from_slice(&region);
    data.extend_from_slice(&1u32.to_le_bytes());
    data.extend_from_slice(&0xAAAAu32.to_le_bytes());
    data.extend_from_slice(&12u32.to_le_bytes());
    data.extend_from_slice(&9u32.to_le_bytes());
    data.extend_from_slice(b"STEVE");
    data.extend_from_slice(&0u32.to_le_bytes());
    let archive = load(&data).unwrap();
    assert!(matches!(archive.filenames(), Err(Error::Parser)));
}

#[test]
fn nul_padding_is_stripped_from_names() {
    let mut dir: Vec<u8> = Vec::new();
    dir.extend_from_slice(&1u32.to_le_bytes());
    dir.extend_from_slice(&8u32.to_le_bytes());
    dir.extend_from_slice(b"a.txt");
    dir.extend_from_slice(&[0, 0, 0]);
    let data = build(&[(0xBBBB, vec![dir])]);
    let archive = load(&data).unwrap();
    assert_eq!(archive.filenames().unwrap(), vec!["a.txt".to_string()]);
}

#[test]
fn empty_entry_has_no_blocks_and_empty_bytes() {
    // The entry declares zero uncompressed bytes, so its chain is empty
    // even though a stray block sits at its offset.
    let dir = dir_payload(&["empty.dat", "dir"]);
    let data = build(&[(0xAAAA, vec![b"".to_vec()]), (0xBBBB, vec![dir])]);
    let archive = load(&data).unwrap();
    assert_eq!(archive.entries[0].blocks.as_ref().unwrap().len(), 0);
    let bytes = archive.get("EMPTY.DAT").unwrap().unwrap();
    assert_eq!(bytes, Vec::<u8>::new());
}

#[test]
fn invalid_utf8_name_is_error() {
    let mut dir: Vec<u8> = Vec::new();
    dir.extend_from_slice(&1u32.to_le_bytes());
    dir.extend_from_slice(&2u32.to_le_bytes());
    dir.extend_from_slice(&[0xFF, 0xFE]);
    let data = build(&[(0xBBBB, vec![dir])]);
    let archive = load(&data).unwrap();
    assert!(matches!(archive.filenames(), Err(Error::Parser)));
}

#[test]
fn entries_are_sorted_by_data_offset() {
    // Records appear in the entry table out of order; parsing sorts
    // them so names align with data order.
    let dir = dir_payload(&["first.bin", "dir"]);
    let sorted = build(&[
        (0xAAAA, vec![b"payload".to_vec()]),
        (0xBBBB, vec![dir]),
    ]);
    // Swap the two 12-byte entry records in the table.
    let mut data = sorted.clone();
    let table = u32::from_le_bytes([data[0], data[1], data[2], data[3]]) as usize + 4;
    let (a, b) = (table, table + 12);
    for k in 0..12 {
        data.swap(a + k, b + k);
    }
    let archive = load(&data).unwrap();
    assert_eq!(
        archive.filenames().unwrap(),
        vec!["first.bin".to_string(), "dir".to_string()]
    );
    assert_eq!(
        archive.get("first.bin").unwrap().unwrap(),
        b"payload".to_vec()
    );
}
