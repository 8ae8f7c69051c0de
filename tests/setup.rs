use mssetupx::error::Error;
use mssetupx::is::{encode_data, gen_key, IsFileAttributesX, IsSetup};
use mssetupx::nfo300::{parse_i32, parse_line, Nfo300Setup};
use mssetupx::nsis::{Nsis, NsisHeader};
use mssetupx::scan::{find_needle, find_padding_data, SetupFormat};
use mssetupx::setup::{classify_payload, sanitize_name, should_remove, Entry, PayloadKind};

const PAD: &[u8] = b"PADDINGXXPADDING";

#[test]
fn find_needle_first_occurrence() {
    assert_eq!(find_needle(b"abcabc", b"bc"), Some(1));
    assert_eq!(find_needle(b"abcabc", b"cd"), None);
    assert_eq!(find_needle(b"ab", b"abc"), None);
    assert_eq!(find_needle(b"abc", b"abc"), Some(0));
}

#[test]
fn find_needle_across_window_boundary() {
    let mut data = vec![0u8; 10_000];
    data[4094..4100].copy_from_slice(b"NFO300");
    assert_eq!(find_needle(&data, b"NFO300"), Some(4094));
    let mut late = vec![7u8; 9000];
    late[8190..8193].copy_from_slice(b"xyz");
    assert_eq!(find_needle(&late, b"xyz"), Some(8190));
}

fn image(marker: &[u8], junk: usize, pads: usize) -> Vec<u8> {
    let mut data = vec![0x11u8; junk];
    for _ in 0..pads {
        data.extend_from_slice(PAD);
    }
    data.extend_from_slice(marker);
    data.resize(data.len() + 5000, 0);
    data
}

#[test]
fn padding_run_end() {
    let data = image(b"NFO300", 100, 3);
    assert_eq!(find_padding_data(&data, 0, data.len() as u64), Ok(Some(148)));
    assert_eq!(find_padding_data(&data, 0, 50), Ok(None));
    // A partial pattern after the run ends where it first differs.
    let mut partial = vec![0u8; 10];
    partial.extend_from_slice(PAD);
    partial.extend_from_slice(b"PADDQ");
    partial.resize(6000, 0);
    assert_eq!(find_padding_data(&partial, 0, 6000), Ok(Some(30)));
    // Fewer than 4096 bytes after the pattern.
    let mut short = PAD.to_vec();
    short.extend_from_slice(b"NFO300");
    assert_eq!(find_padding_data(&short, 0, 100), Err(Error::TruncatedStream));
}

#[test]
fn detect_formats() {
    assert_eq!(SetupFormat::from_reader(&image(b"NFO300", 64, 2)), Ok(SetupFormat::NFO300(96)));
    assert_eq!(SetupFormat::from_reader(&image(b"InstallShield\0", 8, 1)), Ok(SetupFormat::InstallShield(24)));
    // A run followed by something else is skipped.
    let mut two = image(b"zzzz", 0, 1);
    two.truncate(40);
    two.extend_from_slice(&image(b"NFO300", 0, 1));
    assert_eq!(SetupFormat::from_reader(&two), Ok(SetupFormat::NFO300(56)));
    assert_eq!(SetupFormat::from_reader(&vec![0u8; 9000]), Err(Error::FormatUnknown));
}

#[test]
fn nfo300_table_offsets() {
    let data = b"NFO300\n\"a.bin\",\"0\",\"4\"\n\"b.bin\",\"0\",\"6\"\nXXXX AAAABBBBBB".to_vec();
    let start = find_needle(&data, b"XXXX").unwrap();
    let setup = Nfo300Setup::new(data.clone(), 0).unwrap();
    let entries = setup.entries().unwrap();
    assert_eq!(entries.len(), 2);
    assert_eq!(entries[0].name, "a.bin");
    assert_eq!(entries[0].size, 4);
    assert_eq!(entries[0].offset, start);
    assert_eq!(entries[1].name, "b.bin");
    assert_eq!(entries[1].size, 6);
    assert_eq!(entries[1].offset, start + 4);
    assert_eq!(Entry::size(&entries[1]), 6);
    let mut r = setup.entry_reader(&entries[0]);
    assert_eq!(r.read(100), b"XXXX".to_vec());
    let mut r = setup.entry_reader(&entries[1]);
    assert_eq!(r.read(100), b" AAAAB".to_vec());
    assert_eq!(setup.size(), data.len() as u64);
}

#[test]
fn nfo300_crlf_and_detect() {
    let mut data = vec![0u8; 50];
    data.extend_from_slice(b"NFO300 v1\r\n\"x y.cab\",\"-5\",\"+3\"\r\nabc");
    let setup = Nfo300Setup::new_detect(data).unwrap();
    let entries = setup.entries().unwrap();
    assert_eq!(entries.len(), 1);
    assert_eq!(entries[0].name, "x y.cab");
    assert_eq!(entries[0].checksum, -5);
    assert_eq!(entries[0].size, 3);
    assert!(Nfo300Setup::new_detect(vec![1, 2, 3]).is_err());
}

#[test]
fn nfo300_malformed_line() {
    let data = b"NFO300\n\"a.bin\",\"0\"\nXXXX".to_vec();
    let setup = Nfo300Setup::new(data, 0).unwrap();
    assert_eq!(setup.entries().unwrap_err(), Error::MalformedEntry);
    let data = b"NFO300\n\"a.bin\",\"0\",\"four\"\nXXXX".to_vec();
    let setup = Nfo300Setup::new(data, 0).unwrap();
    assert_eq!(setup.entries().unwrap_err(), Error::MalformedEntry);
}

#[test]
fn decimal_fields() {
    assert_eq!(parse_i32(b"0"), Some(0));
    assert_eq!(parse_i32(b"-2147483648"), Some(i32::MIN));
    assert_eq!(parse_i32(b"2147483647"), Some(i32::MAX));
    assert_eq!(parse_i32(b"2147483648"), None);
    assert_eq!(parse_i32(b"+12"), Some(12));
    assert_eq!(parse_i32(b"-"), None);
    assert_eq!(parse_i32(b""), None);
    assert_eq!(parse_i32(b"1a"), None);
    let (name, c, s) = parse_line(b"  \"n\",\"1\",\"2\"\r\n").unwrap();
    assert_eq!((name.as_str(), c, s), ("n", 1, 2));
}

fn is_installer(files: &[(&str, &[u8])]) -> Vec<u8> {
    let mut data = vec![0x33u8; 20];
    data.extend_from_slice(b"InstallShield\0");
    data.extend_from_slice(&(files.len() as u16).to_le_bytes());
    data.extend_from_slice(&[0u8; 30]);
    for (name, plain) in files {
        let mut field = [0u8; 260];
        field[..name.len()].copy_from_slice(name.as_bytes());
        data.extend_from_slice(&field);
        data.extend_from_slice(&[0u8; 8]);
        data.extend_from_slice(&(plain.len() as u32).to_le_bytes());
        data.extend_from_slice(&[0u8; 40]);
        let mut key = name.as_bytes().to_vec();
        gen_key(&mut key);
        let mut enc = plain.to_vec();
        encode_data(&mut enc, &key, 0);
        data.extend_from_slice(&enc);
    }
    data
}

#[test]
fn installshield_entries_decode() {
    let big: Vec<u8> = (0..2500u32).map(|i| (i % 200) as u8).collect();
    let data = is_installer(&[("setup.z0", b"first payload"), ("setup.zip", &big)]);
    let setup = IsSetup::new_detect(data.clone()).unwrap();
    assert_eq!(setup.size(), data.len() as u64 - 20);
    let entries = setup.entries().unwrap();
    assert_eq!(entries.len(), 2);
    assert_eq!(entries[0].name(), "setup.z0");
    assert_eq!(entries[0].size(), 13);
    assert_eq!(entries[0].offset(), 66);
    assert_eq!(entries[1].name(), "setup.zip");
    assert_eq!(entries[1].offset(), 66 + 312 + 13);
    let mut r = setup.entry_reader(&entries[0]).unwrap();
    assert_eq!(r.read_to_end(), b"first payload".to_vec());
    let mut r = setup.entry_reader(&entries[1]).unwrap();
    let mut out = r.read(1000);
    out.extend_from_slice(&r.read(1024));
    out.extend_from_slice(&r.read_to_end());
    assert_eq!(out, big);
}

#[test]
fn installshield_errors() {
    let mut data = is_installer(&[("a", b"xyz")]);
    assert!(matches!(IsSetup::new(data.clone(), 0), Err(Error::BadMagic)));
    data.truncate(20 + 46 + 100);
    let setup = IsSetup::new(data, 20).unwrap();
    assert_eq!(setup.entries().unwrap_err(), Error::TruncatedStream);
    assert!(matches!(IsSetup::new(vec![0u8; 10], 5), Err(Error::TruncatedStream)));
}

#[test]
fn shorter_record_layout() {
    let mut rec = vec![0u8; 24];
    rec[0] = 5;
    rec[10] = 9;
    let x = IsFileAttributesX::read(&rec, 0).unwrap();
    assert_eq!(x.filename_len, 5);
    assert_eq!(x.file_len, 9);
    assert!(IsFileAttributesX::read(&rec[..23], 0).is_err());
}

#[test]
fn stored_names() {
    assert_eq!(sanitize_name("Data1.cab"), "Data1.cab");
    assert_eq!(sanitize_name("my setup/é.z0"), "my_setup__.z0");
}

#[test]
fn nsis_header_flags() {
    let mut data = vec![0u8; 4];
    data.extend_from_slice(&0x1_0003u32.to_le_bytes());
    data.extend_from_slice(&[0u8; 24]);
    let nsis = Nsis::new(data.clone(), 4).unwrap();
    let flags = nsis.hdr().flags();
    assert_eq!(flags.bits(), 3);
    assert!(flags.contains(2));
    assert!(!flags.contains(4));
    assert!(NsisHeader::read(&data, 10).is_err());
}

#[test]
fn payload_kinds() {
    let v = |xs: &[&str]| xs.iter().map(|s| s.to_string()).collect::<Vec<_>>();
    assert_eq!(classify_payload(&v(&["Data1.cab", "setup.zip"])), Ok(PayloadKind::Cab));
    assert_eq!(classify_payload(&v(&["a.z0", "a.z1"])), Ok(PayloadKind::ZipSplit));
    assert_eq!(classify_payload(&v(&["x.zip"])), Ok(PayloadKind::ZipSplit));
    assert_eq!(classify_payload(&v(&["game.msi", "readme"])), Ok(PayloadKind::Msi));
    assert_eq!(classify_payload(&v(&["a.tar.gz", "cab"])), Err(Error::UnknownPayload));
}

#[test]
fn removal_rule() {
    let v = |xs: &[&str]| xs.iter().map(|s| s.to_string()).collect::<Vec<_>>();
    assert!(should_remove("HShield.dll", &v(&["HShield"]), &v(&[])));
    assert!(should_remove("notes.txt", &v(&[]), &v(&["txt"])));
    assert!(!should_remove("notes.txt", &v(&[]), &v(&["log"])));
    assert!(should_remove("x", &v(&[""]), &v(&[])));
    assert!(!should_remove("Maple.exe", &v(&["HS"]), &v(&["dll"])));
}

#[test]
fn nfo300_negative_size_reads_unsigned() {
    let data = b"NFO300\n\"a\",\"0\",\"-1\"\n\"b\",\"0\",\"2\"\nxyz".to_vec();
    let setup = Nfo300Setup::new(data, 0).unwrap();
    let entries = setup.entries().unwrap();
    assert_eq!(Entry::size(&entries[0]), 0xFFFF_FFFF);
    assert_eq!(entries[1].offset, entries[0].offset + 0xFFFF_FFFF);
    let mut r = setup.entry_reader(&entries[0]);
    assert_eq!(r.read(usize::MAX), b"xyz".to_vec());
}

#[test]
fn open_either_format() {
    use_open(image(b"NFO300\nrest", 10, 1), true);
    use_open(is_installer(&[("a.cab", b"cab")]), false);
}

fn use_open(data: Vec<u8>, nfo: bool) {
    let mut padded = PAD.to_vec();
    padded.extend_from_slice(&data[20..]);
    padded.resize(padded.len() + 4200, 0);
    let opened = mssetupx::setup::open_setup(if nfo { data } else { padded }).unwrap();
    match opened {
        mssetupx::setup::SetupFile::Nfo300(s) => assert!(nfo && s.entries().unwrap().is_empty()),
        mssetupx::setup::SetupFile::InstallShield(s) => assert!(!nfo && s.entries().unwrap().len() == 1),
    }
}

#[test]
fn nfo300_fields_must_be_quoted() {
    let data = b"NFO300\n\"a.bin\",0,4\nXXXX".to_vec();
    let setup = Nfo300Setup::new(data, 0).unwrap();
    assert_eq!(setup.entries().unwrap_err(), Error::MalformedEntry);
    assert!(parse_line(b"\"a\",\"1\",2\n").is_none());
    assert!(parse_line(b"a,\"1\",\"2\"\n").is_none());
}

#[test]
fn nfo300_table_must_end_inside_the_window() {
    // The marker line and the entry lines fill the 1000-byte window exactly.
    let mut data = b"NFO300".to_vec();
    let line = b"\"a.bin\",\"0\",\"4\"\n";
    let fill = 1000 - 7 - 15 * line.len();
    data.extend(std::iter::repeat(b' ').take(fill));
    data.push(b'\n');
    for _ in 0..15 {
        data.extend_from_slice(line);
    }
    assert_eq!(data.len(), 1000);
    data.extend_from_slice(b"XXXX");
    let setup = Nfo300Setup::new(data.clone(), 0).unwrap();
    assert_eq!(setup.entries().unwrap_err(), Error::TruncatedStream);
    // The same table ending just inside the window is fine.
    let mut short = data[..1000 - line.len()].to_vec();
    short.extend_from_slice(b"XXXX");
    let setup = Nfo300Setup::new(short, 0).unwrap();
    assert_eq!(setup.entries().unwrap().len(), 14);
    // A table that runs to the end of the image is cut short.
    let setup = Nfo300Setup::new(b"NFO300\n\"a\",\"0\",\"1\"\n".to_vec(), 0).unwrap();
    assert_eq!(setup.entries().unwrap_err(), Error::TruncatedStream);
}

#[test]
fn leading_dot_is_no_extension() {
    let v = |xs: &[&str]| xs.iter().map(|s| s.to_string()).collect::<Vec<_>>();
    assert_eq!(classify_payload(&v(&[".cab"])), Err(Error::UnknownPayload));
    assert_eq!(classify_payload(&v(&[".x.cab"])), Ok(PayloadKind::Cab));
    assert!(!should_remove(".txt", &v(&[]), &v(&["txt"])));
}
