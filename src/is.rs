//! InstallShield installers: a fixed binary header, then for each embedded
//! file a fixed-size record followed by its payload, obfuscated with a
//! keystream derived from the file's name.

use vstd::prelude::*;

use crate::bytes::{copy_range, le_u16, le_u32, read_array, read_u16_le, read_u32_le};
use crate::error::Error;
use crate::scan::{find_needle, installshield_tag, installshield_tag_bytes, is_first_match, matches_at};
use crate::text::{latin1, latin1_string};

verus! {

/// The repeating constant that turns a file name into its key.
pub open spec fn key_magic(i: int) -> u8 {
    if i % 4 == 0 {
        0x13
    } else if i % 4 == 1 {
        0x35
    } else if i % 4 == 2 {
        0x86
    } else {
        0x07
    }
}

/// The key of an entry whose name bytes are `name`: each byte XORed with the
/// repeating constant at its position.
pub open spec fn obfuscation_key(name: Seq<u8>) -> Seq<u8> {
    Seq::new(name.len(), |i: int| name[i] ^ key_magic(i))
}

/// The low eight bits of `b` rotated by four.
pub open spec fn rot4(b: u8) -> u8 {
    ((b >> 4u8) | (b << 4u8)) as u8
}

/// A plaintext byte from the ciphertext byte `b` and the keystream byte `k`.
pub open spec fn decode_byte_spec(b: u8, k: u8) -> u8 {
    !(k ^ rot4(b))
}

/// The ciphertext byte for the plaintext byte `p` and the keystream byte `k`.
pub open spec fn encode_byte_spec(p: u8, k: u8) -> u8 {
    rot4(!p ^ k)
}

/// The keystream byte for position `i` of an entry.
pub open spec fn key_at(key: Seq<u8>, i: int) -> u8 {
    key[i % (key.len() as int)]
}

/// An entry's payload decoded, byte `i` with key byte `i` modulo the key length,
/// starting at entry position `offset`.
pub open spec fn decode_stream(data: Seq<u8>, key: Seq<u8>, offset: int) -> Seq<u8> {
    Seq::new(data.len(), |i: int| decode_byte_spec(data[i], key_at(key, offset + i)))
}

/// The payload whose decoding from entry position `offset` is `plain`.
pub open spec fn encode_stream(plain: Seq<u8>, key: Seq<u8>, offset: int) -> Seq<u8> {
    Seq::new(plain.len(), |i: int| encode_byte_spec(plain[i], key_at(key, offset + i)))
}

/// Turns the name bytes in `key` into the key, in place.
pub fn gen_key(key: &mut Vec<u8>)
    ensures
        final(key)@ == obfuscation_key(old(key)@),
{
    let magic: [u8; 4] = [0x13, 0x35, 0x86, 0x07];
    let ghost name = key@;
    let mut i: usize = 0;
    while i < key.len()
        invariant
            magic@ == seq![0x13u8, 0x35u8, 0x86u8, 0x07u8],
            key@.len() == name.len(),
            i <= name.len(),
            forall|j: int| 0 <= j < i ==> key@[j] == name[j] ^ key_magic(j),
            forall|j: int| i <= j < name.len() ==> key@[j] == name[j],
        decreases name.len() - i,
    {
        let k = key[i] ^ magic[i % 4];
        key.set(i, k);
        i = i + 1;
    }
    assert(key@ =~= obfuscation_key(name));
}

/// One plaintext byte: `NOT(k XOR ROR(b, 4))`.
pub fn decode_byte(b: u8, k: u8) -> (r: u8)
    ensures
        r == decode_byte_spec(b, k),
{
    !(k ^ ((b >> 4u8) | (b << 4u8)))
}

/// One ciphertext byte: `ROL(NOT p XOR k, 4)`.
pub fn encode_byte(p: u8, k: u8) -> (r: u8)
    ensures
        r == encode_byte_spec(p, k),
{
    let x = !p ^ k;
    (x >> 4u8) | (x << 4u8)
}

/// Encoding and then decoding a byte with the same keystream byte gives it back.
pub proof fn lemma_byte_round_trip(p: u8, k: u8)
    ensures
        decode_byte_spec(encode_byte_spec(p, k), k) == p,
{
    assert(decode_byte_spec(encode_byte_spec(p, k), k) == p) by (bit_vector);
}

/// Decoding what was encoded with the same key from the same entry position
/// gives the plaintext back, for any name that yields a key.
pub proof fn lemma_obfuscation_round_trip(name: Seq<u8>, plain: Seq<u8>, offset: int)
    requires
        name.len() > 0,
        offset >= 0,
    ensures
        decode_stream(
            encode_stream(plain, obfuscation_key(name), offset),
            obfuscation_key(name),
            offset,
        ) == plain,
{
    let key = obfuscation_key(name);
    let enc = encode_stream(plain, key, offset);
    assert forall|i: int| 0 <= i < plain.len() implies #[trigger] decode_stream(enc, key, offset)[i]
        == plain[i] by {
        lemma_byte_round_trip(plain[i], key_at(key, offset + i));
    }
    assert(decode_stream(enc, key, offset) =~= plain);
}

/// Decodes `data` in place, the first byte being at entry position `offset`.
pub fn decode_data(data: &mut Vec<u8>, key: &[u8], offset: u64)
    requires
        key@.len() > 0,
        offset + old(data)@.len() <= u64::MAX,
    ensures
        final(data)@ == decode_stream(old(data)@, key@, offset as int),
{
    let ghost src = data@;
    let klen = key.len() as u64;
    let mut i: usize = 0;
    while i < data.len()
        invariant
            key@.len() > 0,
            klen == key@.len(),
            offset + src.len() <= u64::MAX,
            data@.len() == src.len(),
            i <= src.len(),
            forall|j: int| 0 <= j < i ==> data@[j] == decode_byte_spec(src[j], key_at(key@, offset + j)),
            forall|j: int| i <= j < src.len() ==> data@[j] == src[j],
        decreases src.len() - i,
    {
        let pos = offset + i as u64;
        let k = key[(pos % klen) as usize];
        let b = decode_byte(data[i], k);
        data.set(i, b);
        i = i + 1;
    }
    assert(data@ =~= decode_stream(src, key@, offset as int));
}

/// Encodes `data` in place, the first byte being at entry position `offset`.
pub fn encode_data(data: &mut Vec<u8>, key: &[u8], offset: u64)
    requires
        key@.len() > 0,
        offset + old(data)@.len() <= u64::MAX,
    ensures
        final(data)@ == encode_stream(old(data)@, key@, offset as int),
{
    let ghost src = data@;
    let klen = key.len() as u64;
    let mut i: usize = 0;
    while i < data.len()
        invariant
            key@.len() > 0,
            klen == key@.len(),
            offset + src.len() <= u64::MAX,
            data@.len() == src.len(),
            i <= src.len(),
            forall|j: int| 0 <= j < i ==> data@[j] == encode_byte_spec(src[j], key_at(key@, offset + j)),
            forall|j: int| i <= j < src.len() ==> data@[j] == src[j],
        decreases src.len() - i,
    {
        let pos = offset + i as u64;
        let k = key[(pos % klen) as usize];
        let b = encode_byte(data[i], k);
        data.set(i, b);
        i = i + 1;
    }
    assert(data@ =~= encode_stream(src, key@, offset as int));
}

} // verus!

verus! {

/// The size of the packed header.
pub const IS_HEADER_LEN: usize = 46;

/// The size of a packed file record.
pub const IS_RECORD_LEN: usize = 312;

/// The header of an InstallShield payload (packed, little-endian).
#[derive(Clone, Copy, Debug)]
pub struct IsHeader {
    pub signature: [u8; 14],
    pub num_files: u16,
    pub ty: u32,
    pub x4: [u8; 8],
    pub x5: u16,
    pub x6: [u8; 16],
}

/// The signature `InstallShield\0`.
pub open spec fn is_signature() -> Seq<u8> {
    installshield_tag().push(0u8)
}

impl IsHeader {
    /// Reads the header at `pos` of `data`.
    pub fn read(data: &[u8], pos: usize) -> (r: Result<IsHeader, Error>)
        ensures
            pos + IS_HEADER_LEN > data@.len() ==> r == Err::<IsHeader, Error>(Error::TruncatedStream),
            pos + IS_HEADER_LEN <= data@.len() ==> r is Ok && ({
                let h = r->Ok_0;
                &&& h.signature@ == data@.subrange(pos as int, pos + 14)
                &&& h.num_files == le_u16(data@, pos + 14)
                &&& h.ty == le_u32(data@, pos + 16)
                &&& h.x4@ == data@.subrange(pos + 20, pos + 28)
                &&& h.x5 == le_u16(data@, pos + 28)
                &&& h.x6@ == data@.subrange(pos + 30, pos + 46)
            }),
    {
        if pos > data.len() || data.len() - pos < IS_HEADER_LEN {
            return Err(Error::TruncatedStream);
        }
        Ok(IsHeader {
            signature: read_array::<14>(data, pos),
            num_files: read_u16_le(data, pos + 14),
            ty: read_u32_le(data, pos + 16),
            x4: read_array::<8>(data, pos + 20),
            x5: read_u16_le(data, pos + 28),
            x6: read_array::<16>(data, pos + 30),
        })
    }
}

/// The NUL-padded name field of a file record.
#[derive(Clone, Copy, Debug)]
pub struct FilePath(pub [u8; 260]);

/// The position of the first NUL at or after `i` in `s`.
pub open spec fn nul_from(s: Seq<u8>, i: int) -> Option<int>
    decreases s.len() - i,
{
    if i < 0 || i >= s.len() {
        None
    } else if s[i] == 0 {
        Some(i)
    } else {
        nul_from(s, i + 1)
    }
}

/// Whether every byte of `s` is ASCII.
pub open spec fn all_ascii(s: Seq<u8>) -> bool {
    forall|i: int| 0 <= i < s.len() ==> s[i] < 128
}

/// The name bytes of a name field: those before the first NUL.
pub open spec fn c_name(s: Seq<u8>) -> Option<Seq<u8>> {
    match nul_from(s, 0) {
        Some(n) => Some(s.subrange(0, n)),
        None => None,
    }
}

impl FilePath {
    /// The name: the bytes before the first NUL, which must all be ASCII.
    pub fn name(&self) -> (r: Result<String, Error>)
        ensures
            match c_name(self.0@) {
                Some(n) => if all_ascii(n) {
                    r is Ok && r->Ok_0@ == latin1(n)
                } else {
                    r == Err::<String, Error>(Error::MalformedEntry)
                },
                None => r == Err::<String, Error>(Error::MalformedEntry),
            },
    {
        let bytes = self.0.as_slice();
        let mut i: usize = 0;
        while i < bytes.len() && bytes[i] != 0
            invariant
                bytes@ == self.0@,
                i <= bytes@.len(),
                nul_from(bytes@, 0) == nul_from(bytes@, i as int),
                forall|j: int| 0 <= j < i ==> bytes@[j] != 0,
            decreases bytes@.len() - i,
        {
            i = i + 1;
        }
        if i >= bytes.len() {
            return Err(Error::MalformedEntry);
        }
        let mut j: usize = 0;
        while j < i
            invariant
                i < bytes@.len(),
                bytes@ == self.0@,
                nul_from(bytes@, 0) == Some(i as int),
                j <= i,
                forall|m: int| 0 <= m < j ==> bytes@[m] < 128,
            decreases i - j,
        {
            if bytes[j] >= 128 {
                assert(bytes@.subrange(0, i as int)[j as int] >= 128);
                return Err(Error::MalformedEntry);
            }
            j = j + 1;
        }
        assert(all_ascii(bytes@.subrange(0, i as int)));
        Ok(latin1_string(&bytes[0..i]))
    }
}

/// A file record (packed, little-endian); its payload follows it.
#[derive(Clone, Copy, Debug)]
pub struct IsFileAttributes {
    pub file_name: FilePath,
    pub encoded_flags: u32,
    pub x3: u32,
    pub file_len: u32,
    pub x5: [u8; 8],
    pub is_unicode_launcher: u16,
    pub x7: [u8; 30],
}

/// Whether `a` holds the fields of the record at `pos` of `s`.
pub open spec fn is_record_fields(a: IsFileAttributes, s: Seq<u8>, pos: int) -> bool {
    &&& a.file_name.0@ == s.subrange(pos, pos + 260)
    &&& a.encoded_flags == le_u32(s, pos + 260)
    &&& a.x3 == le_u32(s, pos + 264)
    &&& a.file_len == le_u32(s, pos + 268)
    &&& a.x5@ == s.subrange(pos + 272, pos + 280)
    &&& a.is_unicode_launcher == le_u16(s, pos + 280)
    &&& a.x7@ == s.subrange(pos + 282, pos + 312)
}

impl IsFileAttributes {
    /// Reads the record at `pos` of `data`.
    pub fn read(data: &[u8], pos: usize) -> (r: Result<IsFileAttributes, Error>)
        ensures
            pos + IS_RECORD_LEN > data@.len() ==> r == Err::<IsFileAttributes, Error>(Error::TruncatedStream),
            pos + IS_RECORD_LEN <= data@.len() ==> r is Ok && is_record_fields(r->Ok_0, data@, pos as int),
    {
        if pos > data.len() || data.len() - pos < IS_RECORD_LEN {
            return Err(Error::TruncatedStream);
        }
        Ok(IsFileAttributes {
            file_name: FilePath(read_array::<260>(data, pos)),
            encoded_flags: read_u32_le(data, pos + 260),
            x3: read_u32_le(data, pos + 264),
            file_len: read_u32_le(data, pos + 268),
            x5: read_array::<8>(data, pos + 272),
            is_unicode_launcher: read_u16_le(data, pos + 280),
            x7: read_array::<30>(data, pos + 282),
        })
    }
}

/// The shorter record layout that some InstallShield versions use, with the
/// name stored after it (packed, little-endian).
#[derive(Clone, Copy, Debug)]
pub struct IsFileAttributesX {
    pub filename_len: u32,
    pub encoded_flags: u32,
    pub x3: [u8; 2],
    pub file_len: u32,
    pub x5: [u8; 8],
    pub is_unicode_launcher: u16,
}

impl IsFileAttributesX {
    /// Reads the record at `pos` of `data`.
    pub fn read(data: &[u8], pos: usize) -> (r: Result<IsFileAttributesX, Error>)
        ensures
            pos + 24 > data@.len() ==> r == Err::<IsFileAttributesX, Error>(Error::TruncatedStream),
            pos + 24 <= data@.len() ==> r is Ok && ({
                let a = r->Ok_0;
                &&& a.filename_len == le_u32(data@, pos as int)
                &&& a.encoded_flags == le_u32(data@, pos + 4)
                &&& a.x3@ == data@.subrange(pos + 8, pos + 10)
                &&& a.file_len == le_u32(data@, pos + 10)
                &&& a.x5@ == data@.subrange(pos + 14, pos + 22)
                &&& a.is_unicode_launcher == le_u16(data@, pos + 22)
            }),
    {
        if pos > data.len() || data.len() - pos < 24 {
            return Err(Error::TruncatedStream);
        }
        Ok(IsFileAttributesX {
            filename_len: read_u32_le(data, pos),
            encoded_flags: read_u32_le(data, pos + 4),
            x3: read_array::<2>(data, pos + 8),
            file_len: read_u32_le(data, pos + 10),
            x5: read_array::<8>(data, pos + 14),
            is_unicode_launcher: read_u16_le(data, pos + 22),
        })
    }
}

} // verus!

verus! {

/// The record offsets of `n` entries starting with the record at `pos`, each
/// record followed by its payload; an error when a record is cut short or
/// its name is not a NUL-terminated ASCII string.
pub open spec fn is_entry_offsets(s: Seq<u8>, pos: int, n: nat) -> Result<Seq<int>, Error>
    decreases n,
{
    if n == 0 {
        Ok(Seq::empty())
    } else if pos + IS_RECORD_LEN > s.len() {
        Err(Error::TruncatedStream)
    } else {
        let name = s.subrange(pos, pos + 260);
        if c_name(name) is None || !all_ascii(c_name(name)->0) {
            Err(Error::MalformedEntry)
        } else {
            match is_entry_offsets(s, pos + IS_RECORD_LEN + le_u32(s, pos + 268), (n - 1) as nat) {
                Ok(rest) => Ok(seq![pos] + rest),
                Err(e) => Err(e),
            }
        }
    }
}

/// An embedded file: its record and where the record starts.
#[derive(Clone, Debug)]
pub struct IsEntry {
    attr: IsFileAttributes,
    offset: u64,
    name: String,
}

impl IsEntry {
    pub closed spec fn spec_attr(&self) -> IsFileAttributes {
        self.attr
    }

    pub closed spec fn spec_offset(&self) -> u64 {
        self.offset
    }

    pub closed spec fn spec_name(&self) -> Seq<char> {
        self.name@
    }

    /// The record.
    pub fn attr(&self) -> (r: &IsFileAttributes)
        ensures
            *r == self.spec_attr(),
    {
        &self.attr
    }

    /// Where the record starts in the installer.
    pub fn offset(&self) -> (r: u64)
        ensures
            r == self.spec_offset(),
    {
        self.offset
    }
}

impl crate::setup::Entry for IsEntry {
    closed spec fn name_view(&self) -> Seq<char> {
        self.name@
    }

    open spec fn size_view(&self) -> u64 {
        self.spec_attr().file_len as u64
    }

    fn name(&self) -> &str {
        self.name.as_str()
    }

    fn size(&self) -> u64 {
        self.attr.file_len as u64
    }
}

/// Decodes an entry's payload as it is read.
#[derive(Debug)]
pub struct EntryReader {
    data: Vec<u8>,
    key: Vec<u8>,
    offset: u64,
}

impl EntryReader {
    /// The entry's payload as stored.
    pub closed spec fn cipher(&self) -> Seq<u8> {
        self.data@
    }

    pub closed spec fn key(&self) -> Seq<u8> {
        self.key@
    }

    /// The entry position of the next byte to decode.
    pub closed spec fn pos(&self) -> int {
        self.offset as int
    }

    pub closed spec fn wf(&self) -> bool {
        &&& self.key@.len() > 0
        &&& self.offset <= self.data@.len()
        &&& self.data@.len() <= u64::MAX
    }

    /// Decodes up to `max` more bytes. Producing `n` bytes consumes exactly
    /// `n` bytes of the payload and advances the keystream by `n`.
    pub fn read(&mut self, max: usize) -> (r: Vec<u8>)
        requires
            old(self).wf(),
        ensures
            final(self).wf(),
            final(self).cipher() == old(self).cipher(),
            0 <= old(self).pos() <= old(self).cipher().len(),
            0 <= final(self).pos() <= final(self).cipher().len(),
            final(self).key() == old(self).key(),
            r@.len() == if max < old(self).cipher().len() - old(self).pos() {
                max as int
            } else {
                old(self).cipher().len() - old(self).pos()
            },
            final(self).pos() == old(self).pos() + r@.len(),
            r@ == decode_stream(
                old(self).cipher().subrange(old(self).pos(), final(self).pos()),
                old(self).key(),
                old(self).pos(),
            ),
    {
        let start = self.offset as usize;
        let rest = self.data.len() - start;
        let n = if max < rest {
            max
        } else {
            rest
        };
        let mut out = copy_range(self.data.as_slice(), start, start + n);
        decode_data(&mut out, self.key.as_slice(), self.offset);
        self.offset = self.offset + n as u64;
        out
    }

    /// Decodes everything that is left.
    pub fn read_to_end(&mut self) -> (r: Vec<u8>)
        requires
            old(self).wf(),
        ensures
            final(self).wf(),
            final(self).pos() == old(self).cipher().len(),
            r@ == decode_stream(
                old(self).cipher().subrange(old(self).pos(), old(self).cipher().len() as int),
                old(self).key(),
                old(self).pos(),
            ),
    {
        let n = self.data.len() - self.offset as usize;
        self.read(n)
    }
}

/// An InstallShield installer held in memory.
#[derive(Debug)]
pub struct IsSetup {
    hdr: IsHeader,
    hdr_offset: u64,
    data: Vec<u8>,
    size: u64,
}

impl IsSetup {
    pub closed spec fn bytes(&self) -> Seq<u8> {
        self.data@
    }

    pub closed spec fn header_offset(&self) -> int {
        self.hdr_offset as int
    }

    pub closed spec fn num_files(&self) -> u16 {
        self.hdr.num_files
    }

    pub closed spec fn wf(&self) -> bool {
        &&& self.hdr_offset + IS_HEADER_LEN <= self.data@.len()
        &&& self.size == self.data@.len()
        &&& self.hdr.num_files == le_u16(self.data@, self.hdr_offset + 14)
        &&& self.hdr.signature@ == is_signature()
    }

    /// Opens the installer in `data` whose header starts at `hdr_offset`.
    pub fn new(data: Vec<u8>, hdr_offset: u64) -> (r: Result<IsSetup, Error>)
        ensures
            hdr_offset + IS_HEADER_LEN > data@.len() ==> r == Err::<IsSetup, Error>(Error::TruncatedStream),
            hdr_offset + IS_HEADER_LEN <= data@.len() && data@.subrange(hdr_offset as int, hdr_offset + 14)
                != is_signature() ==> r == Err::<IsSetup, Error>(Error::BadMagic),
            hdr_offset + IS_HEADER_LEN <= data@.len() && data@.subrange(hdr_offset as int, hdr_offset + 14)
                == is_signature() ==> r is Ok && r->Ok_0.wf() && r->Ok_0.bytes() == data@
                && r->Ok_0.header_offset() == hdr_offset,
    {
        let size = data.len() as u64;
        if hdr_offset >= size {
            return Err(Error::TruncatedStream);
        }
        let hdr = IsHeader::read(data.as_slice(), hdr_offset as usize)?;
        let tag = installshield_tag_bytes();
        let mut ok = hdr.signature[13] == 0;
        let mut i: usize = 0;
        while i < 13
            invariant
                i <= 13,
                tag@ == installshield_tag(),
                ok == (hdr.signature@[13] == 0 && forall|j: int| 0 <= j < i ==> hdr.signature@[j] == tag@[j]),
            decreases 13 - i,
        {
            ok = ok && hdr.signature[i] == tag[i];
            i = i + 1;
        }
        if !ok {
            proof {
                if hdr.signature@ == is_signature() {
                    assert(hdr.signature@[13] == is_signature()[13]);
                    assert forall|j: int| 0 <= j < 13 implies hdr.signature@[j] == tag@[j] by {
                        assert(is_signature()[j] == installshield_tag()[j]);
                    }
                }
            }
            return Err(Error::BadMagic);
        }
        assert(hdr.signature@ =~= is_signature());
        Ok(IsSetup { hdr, hdr_offset, data, size })
    }

    /// Finds the `InstallShield` marker and opens the installer there.
    pub fn new_detect(data: Vec<u8>) -> (r: Result<IsSetup, Error>)
        ensures
            (forall|j: int| !matches_at(data@, installshield_tag(), j)) ==> r == Err::<IsSetup, Error>(
                Error::FormatUnknown,
            ),
            forall|i: int| #[trigger] is_first_match(data@, installshield_tag(), i) ==> (r is Ok
                <==> (i + IS_HEADER_LEN <= data@.len() && data@.subrange(i, i + 14) == is_signature())),
            r is Ok ==> r->Ok_0.wf() && r->Ok_0.bytes() == data@ && is_first_match(
                data@,
                installshield_tag(),
                r->Ok_0.header_offset(),
            ),
    {
        let tag = installshield_tag_bytes();
        match find_needle(data.as_slice(), tag.as_slice()) {
            None => Err(Error::FormatUnknown),
            Some(offset) => {
                proof {
                    assert forall|i: int| is_first_match(data@, installshield_tag(), i) implies i
                        == offset by {
                        if i < offset {
                            assert(!matches_at(data@, installshield_tag(), i));
                        } else if i > offset {
                            assert(!matches_at(data@, installshield_tag(), offset as int));
                        }
                    }
                }
                IsSetup::new(data, offset)
            },
        }
    }

    /// The marker that announces the format.
    pub fn tag() -> (r: [u8; 13])
        ensures
            r@ == installshield_tag(),
    {
        installshield_tag_bytes()
    }

    /// The payload size: from the header to the end of the installer.
    pub fn size(&self) -> (r: u64)
        requires
            self.wf(),
        ensures
            r == self.bytes().len() - self.header_offset(),
    {
        self.size - self.hdr_offset
    }

    /// The embedded files, in order: the records after the header, each
    /// followed by its payload.
    pub fn entries(&self) -> (r: Result<Vec<IsEntry>, Error>)
        requires
            self.wf(),
        ensures
            match is_entry_offsets(self.bytes(), self.header_offset() + IS_HEADER_LEN, self.num_files() as nat) {
                Ok(offs) => r is Ok && r->Ok_0@.len() == offs.len() && forall|i: int|
                    0 <= i < offs.len() ==> {
                        let e = #[trigger] r->Ok_0@[i];
                        &&& e.spec_offset() == offs[i]
                        &&& is_record_fields(e.spec_attr(), self.bytes(), offs[i])
                        &&& e.spec_name() == latin1(c_name(e.spec_attr().file_name.0@)->0)
                    },
                Err(e) => r == Err::<Vec<IsEntry>, Error>(e),
            },
    {
        let data = self.data.as_slice();
        let n = self.hdr.num_files;
        let mut files: Vec<IsEntry> = Vec::new();
        let total = data.len();
        assert(self.hdr_offset + IS_HEADER_LEN <= total);
        let mut pos: usize = self.hdr_offset as usize + IS_HEADER_LEN;
        let mut k: u16 = 0;
        let ghost s = data@;
        let ghost start = self.header_offset() + IS_HEADER_LEN;
        let ghost done: Seq<int> = Seq::empty();
        while k < n
            invariant
                s == self.bytes(),
                data@ == s,
                start == self.header_offset() + IS_HEADER_LEN,
                n == self.num_files(),
                k <= n,
                pos <= s.len(),
                done.len() == k,
                files@.len() == k,
                forall|i: int| 0 <= i < k ==> {
                    let e = #[trigger] files@[i];
                    &&& e.spec_offset() == done[i]
                    &&& is_record_fields(e.spec_attr(), s, done[i])
                    &&& e.spec_name() == latin1(c_name(e.spec_attr().file_name.0@)->0)
                },
                is_entry_offsets(s, start, n as nat) == match is_entry_offsets(s, pos as int, (n - k) as nat) {
                    Ok(rest) => Ok::<Seq<int>, Error>(done + rest),
                    Err(e) => Err(e),
                },
            decreases n - k,
        {
            let attr = match IsFileAttributes::read(data, pos) {
                Ok(a) => a,
                Err(e) => {
                    assert(is_entry_offsets(s, pos as int, (n - k) as nat) == Err::<Seq<int>, Error>(e));
                    return Err(e);
                },
            };
            assert(attr.file_name.0@ == s.subrange(pos as int, pos + 260));
            let name = match attr.file_name.name() {
                Ok(name) => name,
                Err(e) => {
                    assert(is_entry_offsets(s, pos as int, (n - k) as nat) == Err::<Seq<int>, Error>(e));
                    return Err(e);
                },
            };
            let len = attr.file_len as usize;
            let entry = IsEntry { attr, offset: pos as u64, name };
            files.push(entry);
            proof {
                let next = pos + IS_RECORD_LEN + le_u32(s, pos + 268);
                match is_entry_offsets(s, next, (n - k - 1) as nat) {
                    Ok(rest) => {
                        assert(done + (seq![pos as int] + rest) =~= (done + seq![pos as int]) + rest);
                    },
                    Err(e) => {},
                }
                done = done + seq![pos as int];
            }
            k = k + 1;
            if len > data.len() - pos - IS_RECORD_LEN {
                if k < n {
                    return Err(Error::TruncatedStream);
                }
                pos = data.len();
            } else {
                pos = pos + IS_RECORD_LEN + len;
            }
        }
        assert(done + Seq::<int>::empty() =~= done);
        Ok(files)
    }

    /// A reader that decodes the payload of `entry`. The key is the entry's
    /// name bytes; the payload follows the record.
    pub fn entry_reader(&self, entry: &IsEntry) -> (r: Result<EntryReader, Error>)
        requires
            self.wf(),
        ensures
            r is Ok ==> r->Ok_0.wf() && r->Ok_0.pos() == 0 && c_name(entry.spec_attr().file_name.0@) is Some
                && r->Ok_0.key() == obfuscation_key(c_name(entry.spec_attr().file_name.0@)->0)
                && r->Ok_0.cipher() == self.bytes().subrange(
                entry.spec_offset() + IS_RECORD_LEN,
                entry.spec_offset() + IS_RECORD_LEN + entry.spec_attr().file_len,
            ),
            ({
                let start = entry.spec_offset() + IS_RECORD_LEN;
                let end = start + entry.spec_attr().file_len;
                let name = c_name(entry.spec_attr().file_name.0@);
                &&& end > self.bytes().len() ==> r == Err::<EntryReader, Error>(Error::TruncatedStream)
                &&& end <= self.bytes().len() && !(name is Some && name->0.len() > 0) ==> r == Err::<
                    EntryReader,
                    Error,
                >(Error::MalformedEntry)
                &&& (end <= self.bytes().len() && name is Some && name->0.len() > 0) ==> r is Ok
            }),
    {
        let data = self.data.as_slice();
        let offset = entry.offset;
        let len = entry.attr.file_len as u64;
        if offset > data.len() as u64 || (data.len() as u64) - offset < IS_RECORD_LEN as u64
            || (data.len() as u64) - offset - (IS_RECORD_LEN as u64) < len {
            return Err(Error::TruncatedStream);
        }
        let start = offset as usize + IS_RECORD_LEN;
        let cipher = copy_range(data, start, start + len as usize);
        let field = entry.attr.file_name.0.as_slice();
        let mut i: usize = 0;
        while i < field.len() && field[i] != 0
            invariant
                field@ == entry.spec_attr().file_name.0@,
                i <= field@.len(),
                nul_from(field@, 0) == nul_from(field@, i as int),
            decreases field@.len() - i,
        {
            i = i + 1;
        }
        if i >= field.len() || i == 0 {
            return Err(Error::MalformedEntry);
        }
        let mut key = copy_range(field, 0, i);
        gen_key(&mut key);
        Ok(EntryReader { data: cipher, key, offset: 0 })
    }
}

} // verus!
