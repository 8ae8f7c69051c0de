use std::io::Write;

use mssetupx::crc::wz_patch_calc_crc;
use mssetupx::error::{ChecksumScope, Error};
use mssetupx::patch::{TextHandler, WzPatch, WzPatchEvent, WzPatchFile, WzPatchFilePath, WzPatchHdr, WzPatchOp, WzPatchStream};
use mssetupx::patcher::{WzPatcher, WzPatcherInfo};

fn le(v: u32) -> [u8; 4] {
    v.to_le_bytes()
}

fn old_file() -> Vec<u8> {
    b"hello world".to_vec()
}

fn new_file() -> Vec<u8> {
    b"xxxABCworld".to_vec()
}

fn command_stream() -> Vec<u8> {
    let mut s = Vec::new();
    // add b.bin
    s.extend_from_slice(b"b.bin");
    s.push(0);
    s.extend_from_slice(&le(3));
    s.extend_from_slice(&le(wz_patch_calc_crc(&[1, 2, 3])));
    s.extend_from_slice(&[1, 2, 3]);
    // modify a.txt
    s.extend_from_slice(b"a.txt");
    s.push(1);
    s.extend_from_slice(&le(wz_patch_calc_crc(&old_file())));
    s.extend_from_slice(&le(wz_patch_calc_crc(&new_file())));
    s.extend_from_slice(&le(0xC000_0000 | (3 << 8) | b'x' as u32));
    s.extend_from_slice(&le(0x8000_0003));
    s.extend_from_slice(b"ABC");
    s.extend_from_slice(&le(5));
    s.extend_from_slice(&le(6));
    s.extend_from_slice(&le(0));
    // remove c.dat
    s.extend_from_slice(b"c.dat");
    s.push(2);
    s
}

fn patch_file(stream: &[u8]) -> Vec<u8> {
    let mut enc = flate2::write::ZlibEncoder::new(Vec::new(), flate2::Compression::default());
    enc.write_all(stream).unwrap();
    let body = enc.finish().unwrap();
    let mut f = b"WzPatch\x1A".to_vec();
    f.extend_from_slice(&84i32.to_le_bytes());
    f.extend_from_slice(&le(wz_patch_calc_crc(&body)));
    f.extend_from_slice(&body);
    f
}

#[test]
fn header_is_read() {
    let f = patch_file(&command_stream());
    let hdr = WzPatchHdr::read(&f).unwrap();
    assert_eq!(hdr.version, 84);
    let patch = WzPatch::new(f).unwrap();
    assert_eq!(patch.version(), 84);
    assert_eq!(patch.verify_checksum(), Ok(()));
}

#[test]
fn header_errors() {
    assert_eq!(WzPatchHdr::read(b"WzPa").unwrap_err(), Error::TruncatedStream);
    assert_eq!(WzPatchHdr::read(b"WzPatch\x1B12345678").unwrap_err(), Error::BadMagic);
    assert_eq!(WzPatchHdr::read(b"WzPatch\x1A1234").unwrap_err(), Error::TruncatedStream);
}

#[test]
fn payload_checksum_mismatch() {
    let mut f = patch_file(&command_stream());
    let n = f.len();
    f[n - 1] ^= 0xFF;
    let patch = WzPatch::new(f).unwrap();
    match patch.verify_checksum() {
        Err(Error::ChecksumMismatch { scope, .. }) => assert_eq!(scope, ChecksumScope::PatchPayload),
        other => panic!("unexpected {:?}", other),
    }
}

#[test]
fn corrupt_body_does_not_inflate() {
    let mut f = b"WzPatch\x1A".to_vec();
    f.extend_from_slice(&[0; 8]);
    f.extend_from_slice(&[1, 2, 3, 4, 5]);
    let patch = WzPatch::new(f).unwrap();
    assert!(matches!(patch.patch_stream(), Err(Error::Decompress)));
}

#[test]
fn path_and_record_headers() {
    let (p, op, next) = WzPatchFilePath::read(b"dir/a.txt\x02rest", 0).unwrap();
    assert_eq!(p.0, "dir/a.txt");
    assert_eq!(op, 2);
    assert_eq!(next, 10);
    assert!(WzPatchFilePath::read(b"no terminator", 0).is_err());
    let mut rec = b"x".to_vec();
    rec.push(1);
    rec.extend_from_slice(&le(7));
    rec.extend_from_slice(&le(9));
    let (f, next) = WzPatchFile::read(&rec, 0).unwrap();
    assert_eq!(f.file.0, "x");
    assert_eq!(f.op, WzPatchOp::ModifyFile { old_checksum: 7, new_checksum: 9 });
    assert_eq!(next, 10);
    assert!(WzPatchFile::read(&rec[..6], 0).is_err());
}

#[test]
fn events_follow_records() {
    let events = WzPatchStream::new(command_stream()).events().unwrap();
    assert_eq!(events.len(), 7);
    match &events[0] {
        WzPatchEvent::Add { path, data } => {
            assert_eq!(path.0, "b.bin");
            assert_eq!(data.data(), &[1, 2, 3]);
            assert_eq!(data.len(), 3);
        }
        e => panic!("unexpected {:?}", e),
    }
    assert!(matches!(&events[1], WzPatchEvent::Modify { path, .. } if path.0 == "a.txt"));
    assert!(matches!(&events[2], WzPatchEvent::Repeat { byte: b'x', len: 3 }));
    assert!(matches!(&events[3], WzPatchEvent::NewBlock { data } if data.data() == b"ABC"));
    assert!(matches!(&events[4], WzPatchEvent::OldBlock { offset: 6, len: 5 }));
    assert!(matches!(&events[5], WzPatchEvent::End { .. }));
    assert!(matches!(&events[6], WzPatchEvent::Remove { path } if path.0 == "c.dat"));
}

#[test]
fn cut_record_is_an_error() {
    let s = command_stream();
    let cut = WzPatchStream::new(s[..s.len() - 3].to_vec());
    assert_eq!(cut.events().unwrap_err(), Error::TruncatedStream);
    let empty = WzPatchStream::new(Vec::new());
    assert_eq!(empty.events().unwrap().len(), 0);
}

#[test]
fn patcher() {
    let patch = WzPatch::new(patch_file(&command_stream())).unwrap();
    let mut patcher = WzPatcher::new(vec![("a.txt".to_string(), old_file())]);
    patch.process(&mut patcher).unwrap();
    assert_eq!(patcher.added(), &vec![("b.bin".to_string(), vec![1, 2, 3])]);
    assert_eq!(patcher.modified(), &vec![("a.txt".to_string(), new_file())]);
    assert_eq!(patcher.removed(), &vec!["c.dat".to_string()]);
}

#[test]
fn patcher_rejects_wrong_source() {
    let patch = WzPatch::new(patch_file(&command_stream())).unwrap();
    let mut patcher = WzPatcher::new(vec![("a.txt".to_string(), b"hello there".to_vec())]);
    match patch.process(&mut patcher) {
        Err(Error::ChecksumMismatch { scope, .. }) => assert_eq!(scope, ChecksumScope::SourceFile),
        other => panic!("unexpected {:?}", other),
    }
    let mut missing = WzPatcher::new(Vec::new());
    assert_eq!(patch.process(&mut missing), Err(Error::MissingFile));
    // The add before the failing modify was handled, nothing after it.
    assert_eq!(missing.added().len(), 1);
    assert!(missing.modified().is_empty());
    assert!(missing.removed().is_empty());
}

#[test]
fn patcher_rejects_wrong_target() {
    let mut s = command_stream();
    // Corrupt the literal block so the produced file differs.
    let pos = s.windows(3).position(|w| w == b"ABC").unwrap();
    s[pos] = b'Z';
    let patch = WzPatch::new(patch_file(&s)).unwrap();
    let mut patcher = WzPatcher::new(vec![("a.txt".to_string(), old_file())]);
    match patch.process(&mut patcher) {
        Err(Error::ChecksumMismatch { scope, .. }) => assert_eq!(scope, ChecksumScope::TargetFile),
        other => panic!("unexpected {:?}", other),
    }
    assert!(patcher.modified().is_empty());
}

#[test]
fn patcher_protocol_violation() {
    let mut p = WzPatcher::new(Vec::new());
    assert_eq!(p.end_modify(0), Err(Error::ProtocolViolation));
    assert_eq!(p.step(&WzPatchEvent::Repeat { byte: 0, len: 1 }), Err(Error::ProtocolViolation));
}

#[test]
fn patcher_info() {
    let patch = WzPatch::new(patch_file(&command_stream())).unwrap();
    let mut info = WzPatcherInfo::default();
    patch.process(&mut info).unwrap();
    assert_eq!(info.added_files, vec![("b.bin".to_string(), 3)]);
    assert_eq!(info.modified_files, vec![("a.txt".to_string(), 11)]);
    assert_eq!(info.removed_files, vec!["c.dat".to_string()]);
}

#[test]
fn text_listing() {
    let patch = WzPatch::new(patch_file(&command_stream())).unwrap();
    let mut text = TextHandler::default();
    patch.process(&mut text).unwrap();
    let expected = format!(
        "Add: b.bin len: 3\nModify: a.txt old: {} new: {}\n\t a.txt - Repeat: 120 len: 3\n\t a.txt - New Block 3\n\t a.txt - Old Block offset: 6 len: 5\n\t a.txt - End {}\nRemove: c.dat\n",
        wz_patch_calc_crc(&old_file()),
        wz_patch_calc_crc(&new_file()),
        wz_patch_calc_crc(&new_file()),
    );
    assert_eq!(text.w, expected);
    assert_eq!(text.cur_file, None);
    let mut idle = TextHandler::default();
    assert_eq!(idle.write_event(&WzPatchEvent::End { checksum: 1 }), Err(Error::ProtocolViolation));
}
