use mssetupx::crc::{wz_patch_calc_crc, wz_patch_verify_crc, WzDigest};
use mssetupx::error::{ChecksumScope, Error};
use mssetupx::is::{decode_byte, decode_data, encode_byte, encode_data, gen_key};
use mssetupx::patch::WzPatchBlock;

#[test]
fn crc_check_vector() {
    let c = wz_patch_calc_crc(b"123456789");
    assert_eq!(c, 0x89A1_897F);
    // The same register with a final inversion is the published CRC-32/CKSUM check.
    assert_eq!(c ^ 0xFFFF_FFFF, 0x765E_7680);
}

#[test]
fn crc_of_empty_is_zero() {
    assert_eq!(wz_patch_calc_crc(b""), 0);
}

#[test]
fn crc_streaming_matches_one_shot() {
    let data: Vec<u8> = (0..10_000u32).map(|i| (i * 7 + 3) as u8).collect();
    let mut d = WzDigest::new();
    d.update(&data[..1]);
    d.update(&data[1..5000]);
    d.update(&data[5000..]);
    assert_eq!(d.finalize(), wz_patch_calc_crc(&data));
    let mut e = WzDigest::new();
    e.update(b"1234");
    e.update(b"56789");
    assert_eq!(e.finalize(), 0x89A1_897F);
}

#[test]
fn crc_verify_reports_mismatch() {
    assert_eq!(wz_patch_verify_crc(b"123456789", 0x89A1_897F, ChecksumScope::PatchPayload), Ok(()));
    assert_eq!(
        wz_patch_verify_crc(b"123456789", 1, ChecksumScope::SourceFile),
        Err(Error::ChecksumMismatch { expected: 1, got: 0x89A1_897F, scope: ChecksumScope::SourceFile })
    );
}

#[test]
fn block_new_block_empty() {
    let r = WzPatchBlock::read(&[0x00, 0x00, 0x00, 0x80], 0);
    assert_eq!(r, Ok((WzPatchBlock::NewBlock { len: 0 }, 4)));
}

#[test]
fn block_repeat() {
    let r = WzPatchBlock::read(&[0x41, 0x02, 0x00, 0xC0], 0);
    assert_eq!(r, Ok((WzPatchBlock::Repeat { byte: 0x41, len: 2 }, 4)));
}

#[test]
fn block_old_block() {
    let r = WzPatchBlock::read(&[0x10, 0x00, 0x00, 0x00, 0x00, 0x10, 0x00, 0x00], 0);
    assert_eq!(r, Ok((WzPatchBlock::OldBlock { len: 0x10, offset: 0x1000 }, 8)));
}

#[test]
fn block_end_and_truncation() {
    assert_eq!(WzPatchBlock::read(&[0, 0, 0, 0], 0), Ok((WzPatchBlock::End, 4)));
    assert_eq!(WzPatchBlock::read(&[0, 0, 0], 0), Err(Error::TruncatedStream));
    assert_eq!(WzPatchBlock::read(&[0x10, 0, 0, 0, 0], 0), Err(Error::TruncatedStream));
}

#[test]
fn block_word_round_trip() {
    for v in [0x8000_0000u32, 0x8123_4567, 0xC000_0241, 0xCFFF_FFFF, 0x0000_0010, 0x0FFF_FFFF, 0] {
        let b = WzPatchBlock::from_words(v, 0x1000);
        assert_eq!(b.word(), v);
    }
    for b in [
        WzPatchBlock::Repeat { byte: 0xAB, len: 0xF_FFFF },
        WzPatchBlock::NewBlock { len: 77 },
        WzPatchBlock::OldBlock { len: 5, offset: 9 },
        WzPatchBlock::End,
    ] {
        let off = match b {
            WzPatchBlock::OldBlock { offset, .. } => offset,
            _ => 0,
        };
        assert_eq!(WzPatchBlock::from_words(b.word(), off), b);
    }
}

#[test]
fn block_lengths() {
    assert_eq!(WzPatchBlock::Repeat { byte: 1, len: 9 }.out_len(), 9);
    assert_eq!(WzPatchBlock::Repeat { byte: 1, len: 9 }.in_len(), 0);
    assert_eq!(WzPatchBlock::NewBlock { len: 3 }.out_len(), 3);
    assert_eq!(WzPatchBlock::NewBlock { len: 3 }.in_len(), 3);
    assert_eq!(WzPatchBlock::OldBlock { len: 4, offset: 1 }.out_len(), 4);
    assert_eq!(WzPatchBlock::End.out_len(), 0);
}

#[test]
fn obfuscation_single_byte() {
    let mut key = b"x".to_vec();
    gen_key(&mut key);
    assert_eq!(key, vec![0x6B]);
    // NOT 0x41 = 0xBE; 0xBE XOR 0x6B = 0xD5; rotated by four: 0x5D.
    assert_eq!(encode_byte(0x41, 0x6B), 0x5D);
    assert_eq!(decode_byte(0x5D, 0x6B), 0x41);
    // ROR(0x5B, 4) = 0xB5; 0x6B XOR 0xB5 = 0xDE; NOT: 0x21.
    assert_eq!(decode_byte(0x5B, 0x6B), 0x21);
}

#[test]
fn gen_key_cycles_the_constant() {
    let mut key = vec![0u8; 6];
    gen_key(&mut key);
    assert_eq!(key, vec![0x13, 0x35, 0x86, 0x07, 0x13, 0x35]);
}

#[test]
fn obfuscation_round_trip_keeps_key_position() {
    let mut key = b"setup.zip".to_vec();
    gen_key(&mut key);
    let plain: Vec<u8> = (0..3000u32).map(|i| (i % 251) as u8).collect();
    let mut data = plain.clone();
    encode_data(&mut data, &key, 0);
    assert_ne!(data, plain);
    let mut first = data[..1500].to_vec();
    let mut second = data[1500..].to_vec();
    decode_data(&mut first, &key, 0);
    decode_data(&mut second, &key, 1500);
    first.extend_from_slice(&second);
    assert_eq!(first, plain);
}
