use std::io::Read;

use mssetupx::error::Error;
use mssetupx::split::{fix_offsets, JoinedFile, MemoryCowFile};

fn parts() -> Vec<Vec<u8>> {
    vec![b"hello ".to_vec(), Vec::new(), b"split ".to_vec(), (0..5000u32).map(|i| i as u8).collect()]
}

#[test]
fn joined_bytes_are_the_parts_in_order() {
    let ps = parts();
    let all: Vec<u8> = ps.concat();
    let j = JoinedFile::new(ps);
    assert_eq!(j.len(), all.len() as u64);
    assert_eq!(j.num_splits(), 4);
    assert_eq!(j.read_at(0, all.len()), all);
    assert_eq!(j.read_at(4, 5), b"o spl".to_vec());
    assert_eq!(j.read_at(all.len() as u64 - 2, 10), all[all.len() - 2..].to_vec());
    assert_eq!(j.read_at(all.len() as u64 + 5, 10), Vec::<u8>::new());
    assert_eq!(j.splits(), vec![(0, 6), (6, 6), (6, 12), (12, 5012)]);
}

#[test]
fn overlay_without_writes_is_transparent() {
    let all: Vec<u8> = parts().concat();
    let c = MemoryCowFile::new(JoinedFile::new(parts()));
    assert_eq!(c.len(), all.len() as u64);
    assert_eq!(c.read_at(0, all.len()), all);
    assert_eq!(c.read_at(4090, 20), all[4090..4110].to_vec());
}

#[test]
fn overlay_keeps_last_write() {
    let mut all: Vec<u8> = parts().concat();
    let mut c = MemoryCowFile::new(JoinedFile::new(parts()));
    c.write_at(4094, b"ABCDEF");
    c.write_at(4095, b"x");
    c.write_at(0, b"J");
    all[4094..4100].copy_from_slice(b"ABCDEF");
    all[4095] = b'x';
    all[0] = b'J';
    assert_eq!(c.read_at(0, all.len()), all);
    assert_eq!(c.len(), all.len() as u64);
}

fn local_header(name: &[u8], data: &[u8]) -> Vec<u8> {
    let mut h = vec![0x50, 0x4B, 3, 4, 10, 0, 0, 0, 0, 0, 0, 0, 0, 0];
    h.extend_from_slice(&crc32(data).to_le_bytes());
    h.extend_from_slice(&(data.len() as u32).to_le_bytes());
    h.extend_from_slice(&(data.len() as u32).to_le_bytes());
    h.extend_from_slice(&(name.len() as u16).to_le_bytes());
    h.extend_from_slice(&0u16.to_le_bytes());
    h.extend_from_slice(name);
    h.extend_from_slice(data);
    h
}

fn central_entry(name: &[u8], data: &[u8], disk: u16, offset: u32) -> Vec<u8> {
    let mut h = vec![0x50, 0x4B, 1, 2, 20, 0, 10, 0, 0, 0, 0, 0, 0, 0, 0, 0];
    h.extend_from_slice(&crc32(data).to_le_bytes());
    h.extend_from_slice(&(data.len() as u32).to_le_bytes());
    h.extend_from_slice(&(data.len() as u32).to_le_bytes());
    h.extend_from_slice(&(name.len() as u16).to_le_bytes());
    h.extend_from_slice(&[0, 0, 0, 0]);
    h.extend_from_slice(&disk.to_le_bytes());
    h.extend_from_slice(&[0, 0, 0, 0, 0, 0]);
    h.extend_from_slice(&offset.to_le_bytes());
    h.extend_from_slice(name);
    h
}

fn crc32(data: &[u8]) -> u32 {
    let mut c: u32 = 0xFFFF_FFFF;
    for &b in data {
        c ^= b as u32;
        for _ in 0..8 {
            c = if c & 1 != 0 { (c >> 1) ^ 0xEDB8_8320 } else { c >> 1 };
        }
    }
    !c
}

fn split_archive() -> Vec<Vec<u8>> {
    let part0 = local_header(b"a.txt", b"first file");
    let mut part1 = local_header(b"b.txt", b"second");
    let cd_start = part1.len() as u32;
    let mut cd = central_entry(b"a.txt", b"first file", 0, 0);
    cd.extend_from_slice(&central_entry(b"b.txt", b"second", 1, 0));
    let cd_len = cd.len() as u32;
    part1.extend_from_slice(&cd);
    let mut eocd = vec![0x50, 0x4B, 5, 6];
    eocd.extend_from_slice(&1u16.to_le_bytes());
    eocd.extend_from_slice(&1u16.to_le_bytes());
    eocd.extend_from_slice(&1u16.to_le_bytes());
    eocd.extend_from_slice(&2u16.to_le_bytes());
    eocd.extend_from_slice(&cd_len.to_le_bytes());
    eocd.extend_from_slice(&cd_start.to_le_bytes());
    eocd.extend_from_slice(&0u16.to_le_bytes());
    part1.extend_from_slice(&eocd);
    vec![part0, part1]
}

#[test]
fn repaired_split_archive_reads_as_one() {
    let joined = JoinedFile::new(split_archive());
    let ranges = joined.splits();
    let mut cow = MemoryCowFile::new(joined);
    assert_eq!(fix_offsets(&mut cow, &ranges), Ok(()));
    let bytes = cow.read_at(0, cow.len() as usize);
    let mut archive = zip::ZipArchive::new(std::io::Cursor::new(bytes)).unwrap();
    assert_eq!(archive.len(), 2);
    let mut s = String::new();
    archive.by_name("b.txt").unwrap().read_to_string(&mut s).unwrap();
    assert_eq!(s, "second");
    s.clear();
    archive.by_name("a.txt").unwrap().read_to_string(&mut s).unwrap();
    assert_eq!(s, "first file");
}

#[test]
fn repair_needs_an_end_record() {
    let joined = JoinedFile::new(vec![vec![0u8; 100]]);
    let ranges = joined.splits();
    let mut cow = MemoryCowFile::new(joined);
    assert_eq!(fix_offsets(&mut cow, &ranges), Err(Error::BadMagic));
    let mut parts = split_archive();
    let n = parts[1].len();
    parts[1][n - 22 + 6] = 9;
    let joined = JoinedFile::new(parts);
    let ranges = joined.splits();
    let before = joined.read_at(0, joined.len() as usize);
    let mut cow = MemoryCowFile::new(joined);
    assert_eq!(fix_offsets(&mut cow, &ranges), Err(Error::MalformedEntry));
    assert_eq!(cow.read_at(0, cow.len() as usize), before);
}
