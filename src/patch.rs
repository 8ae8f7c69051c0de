//! WzPatch archives: a magic-prefixed header, a CRC over the compressed body,
//! and a zlib-compressed command stream of per-file records.

use vstd::prelude::*;

use crate::bytes::{copy_range, le_u32, read_u32_le};
use crate::text::{decimal, latin1, latin1_string, push_decimal, push_str};
use crate::crc::wz_patch_verify_crc;
use crate::error::{ChecksumScope, Error};

verus! {

/// One step of a modify program.
#[derive(Clone, Copy, Debug, PartialEq, Eq, Structural)]
pub enum WzPatchBlock {
    /// Repeat a byte `byte` `len` times
    Repeat { byte: u8, len: u32 },
    /// New block with `len` bytes, following for this block
    NewBlock { len: u32 },
    /// Copy `len` bytes from the old file at `offset`
    OldBlock { len: u32, offset: u32 },
    /// End of the block
    End,
}

/// Whether the tag word `v` announces an old-file block, which carries a
/// second word with the offset.
pub open spec fn word_has_offset(v: u32) -> bool {
    v >> 28u32 != 8 && v >> 28u32 != 0xC && v != 0
}

/// The block that the tag word `v` (and, for an old-file block, the offset
/// word `offset`) encodes.
pub open spec fn block_of_word(v: u32, offset: u32) -> WzPatchBlock {
    if v >> 28u32 == 8 {
        WzPatchBlock::NewBlock { len: v & 0x0FFF_FFFFu32 }
    } else if v >> 28u32 == 0xC {
        WzPatchBlock::Repeat { byte: (v & 0xFFu32) as u8, len: (v >> 8u32) & 0x000F_FFFFu32 }
    } else if v == 0 {
        WzPatchBlock::End
    } else {
        WzPatchBlock::OldBlock { len: v & 0x0FFF_FFFFu32, offset }
    }
}

/// The tag word that encodes a block.
pub open spec fn word_of_block(b: WzPatchBlock) -> u32 {
    match b {
        WzPatchBlock::Repeat { byte, len } => 0xC000_0000u32 | (len << 8u32) | (byte as u32),
        WzPatchBlock::NewBlock { len } => 0x8000_0000u32 | len,
        WzPatchBlock::OldBlock { len, .. } => len,
        WzPatchBlock::End => 0,
    }
}

/// The offset word that follows the tag of an old-file block (0 for others).
pub open spec fn offset_of_block(b: WzPatchBlock) -> u32 {
    match b {
        WzPatchBlock::OldBlock { offset, .. } => offset,
        _ => 0,
    }
}

/// Whether a tag word is in the canonical form that an encoder produces: its
/// top four bits are 0x0, 0x8 or 0xC.
pub open spec fn word_is_canonical(v: u32) -> bool {
    v >> 28u32 == 0 || v >> 28u32 == 8 || v >> 28u32 == 0xC
}

/// Whether a block's fields fit the bit fields of its tag word.
pub open spec fn block_is_encodable(b: WzPatchBlock) -> bool {
    match b {
        WzPatchBlock::Repeat { len, .. } => len < 0x10_0000,
        WzPatchBlock::NewBlock { len } => len < 0x1000_0000,
        WzPatchBlock::OldBlock { len, .. } => 0 < len < 0x1000_0000,
        WzPatchBlock::End => true,
    }
}

/// The block read at `pos` of `s` and the position after it, when the words
/// it needs are there.
pub open spec fn block_at(s: Seq<u8>, pos: int) -> Option<(WzPatchBlock, int)> {
    if pos < 0 || pos + 4 > s.len() {
        None
    } else if word_has_offset(le_u32(s, pos)) {
        if pos + 8 > s.len() {
            None
        } else {
            Some((block_of_word(le_u32(s, pos), le_u32(s, pos + 4)), pos + 8))
        }
    } else {
        Some((block_of_word(le_u32(s, pos), 0), pos + 4))
    }
}

/// Decoding a canonical tag word and encoding the block again gives the same
/// words back; encoding an encodable block and decoding it gives the block back.
pub proof fn lemma_block_round_trip(v: u32, offset: u32, b: WzPatchBlock)
    ensures
        word_is_canonical(v) ==> word_of_block(block_of_word(v, offset)) == v,
        word_is_canonical(v) && word_has_offset(v) ==> offset_of_block(block_of_word(v, offset))
            == offset,
        block_is_encodable(b) ==> block_of_word(word_of_block(b), offset_of_block(b)) == b,
        block_is_encodable(b) ==> (word_has_offset(word_of_block(b)) <==> b is OldBlock),
{
    if word_is_canonical(v) {
        if v >> 28u32 == 8 {
            assert(0x8000_0000u32 | (v & 0x0FFF_FFFFu32) == v) by (bit_vector)
                requires
                    v >> 28u32 == 8,
            ;
        } else if v >> 28u32 == 0xC {
            assert(0xC000_0000u32 | (((v >> 8u32) & 0x000F_FFFFu32) << 8u32) | (((v
                & 0xFFu32) as u8) as u32) == v) by (bit_vector)
                requires
                    v >> 28u32 == 0xC,
            ;
        } else if v != 0 {
            assert(v & 0x0FFF_FFFFu32 == v) by (bit_vector)
                requires
                    v >> 28u32 == 0,
            ;
        }
    }
    if block_is_encodable(b) {
    match b {
        WzPatchBlock::Repeat { byte, len } => {
            let w = 0xC000_0000u32 | (len << 8u32) | (byte as u32);
            assert(w >> 28u32 == 0xC && (w & 0xFFu32) as u8 == byte && (w >> 8u32) & 0x000F_FFFFu32
                == len && w != 0) by (bit_vector)
                requires
                    len < 0x10_0000u32,
                    w == 0xC000_0000u32 | (len << 8u32) | (byte as u32),
            ;
        },
        WzPatchBlock::NewBlock { len } => {
            let w = 0x8000_0000u32 | len;
            assert(w >> 28u32 == 8 && w & 0x0FFF_FFFFu32 == len) by (bit_vector)
                requires
                    len < 0x1000_0000u32,
                    w == 0x8000_0000u32 | len,
            ;
        },
        WzPatchBlock::OldBlock { len, offset: o } => {
            assert(len >> 28u32 == 0 && len & 0x0FFF_FFFFu32 == len) by (bit_vector)
                requires
                    len < 0x1000_0000u32,
            ;
        },
        WzPatchBlock::End => {
            assert(0u32 >> 28u32 == 0) by (bit_vector);
        },
    }
    }
}

impl WzPatchBlock {
    /// The number of bytes the block contributes to the new file.
    pub fn out_len(&self) -> (r: u32)
        ensures
            r == match *self {
                WzPatchBlock::Repeat { len, .. } => len,
                WzPatchBlock::NewBlock { len } => len,
                WzPatchBlock::OldBlock { len, .. } => len,
                WzPatchBlock::End => 0u32,
            },
    {
        match self {
            WzPatchBlock::Repeat { len, .. } => *len,
            WzPatchBlock::NewBlock { len } => *len,
            WzPatchBlock::OldBlock { len, .. } => *len,
            WzPatchBlock::End => 0,
        }
    }

    /// The number of literal bytes that follow the block in the command stream.
    pub fn in_len(&self) -> (r: u32)
        ensures
            r == match *self {
                WzPatchBlock::NewBlock { len } => len,
                _ => 0u32,
            },
    {
        match self {
            WzPatchBlock::NewBlock { len } => *len,
            _ => 0,
        }
    }

    /// Decodes a tag word; `offset` is used by an old-file block only.
    pub fn from_words(v: u32, offset: u32) -> (r: WzPatchBlock)
        ensures
            r == block_of_word(v, offset),
    {
        if v >> 28u32 == 8 {
            WzPatchBlock::NewBlock { len: v & 0x0FFF_FFFF }
        } else if v >> 28u32 == 0xC {
            WzPatchBlock::Repeat { byte: (v & 0xFF) as u8, len: (v >> 8u32) & 0x000F_FFFF }
        } else if v == 0 {
            WzPatchBlock::End
        } else {
            WzPatchBlock::OldBlock { len: v & 0x0FFF_FFFF, offset }
        }
    }

    /// Reads the block at `pos` of `data`: its tag word and, for an old-file
    /// block, the offset word after it. Returns the block and the position
    /// after what was read.
    pub fn read(data: &[u8], pos: usize) -> (r: Result<(WzPatchBlock, usize), Error>)
        ensures
            match block_at(data@, pos as int) {
                Some((b, next)) => r is Ok && r->Ok_0.0 == b && r->Ok_0.1 == next,
                None => r == Err::<(WzPatchBlock, usize), Error>(Error::TruncatedStream),
            },
    {
        if data.len() < 4 || pos > data.len() - 4 {
            return Err(Error::TruncatedStream);
        }
        let v = read_u32_le(data, pos);
        if v >> 28u32 != 8 && v >> 28u32 != 0xC && v != 0 {
            if data.len() < 8 || pos > data.len() - 8 {
                return Err(Error::TruncatedStream);
            }
            let offset = read_u32_le(data, pos + 4);
            Ok((WzPatchBlock::from_words(v, offset), pos + 8))
        } else {
            Ok((WzPatchBlock::from_words(v, 0), pos + 4))
        }
    }

    /// The tag word that encodes the block.
    pub fn word(&self) -> (r: u32)
        ensures
            r == word_of_block(*self),
    {
        match self {
            WzPatchBlock::Repeat { byte, len } => 0xC000_0000u32 | (*len << 8u32) | (*byte as u32),
            WzPatchBlock::NewBlock { len } => 0x8000_0000u32 | *len,
            WzPatchBlock::OldBlock { len, .. } => *len,
            WzPatchBlock::End => 0,
        }
    }
}

} // verus!

verus! {

/// What a patch tells its handler, as the mathematical model of
/// [`WzPatchEvent`].
pub enum PatchEvent {
    Add { path: Seq<char>, checksum: u32, data: Seq<u8> },
    Remove { path: Seq<char> },
    Modify { path: Seq<char>, old_checksum: u32, new_checksum: u32 },
    Repeat { byte: u8, len: u32 },
    NewBlock { data: Seq<u8> },
    OldBlock { offset: u32, len: u32 },
    End { checksum: u32 },
}

/// The position of the first byte at or after `pos` that ends a path (0, 1 or 2).
pub open spec fn path_end(s: Seq<u8>, pos: int) -> Option<int>
    decreases s.len() - pos,
{
    if pos < 0 || pos >= s.len() {
        None
    } else if s[pos] <= 2 {
        Some(pos)
    } else {
        path_end(s, pos + 1)
    }
}

/// The events of a modify program that starts at `pos`, up to but not
/// including its end marker, and the position after the end marker.
pub open spec fn blocks_from(s: Seq<u8>, pos: int) -> Option<(Seq<PatchEvent>, int)>
    decreases s.len() - pos,
{
    match block_at(s, pos) {
        None => None,
        Some((b, next)) => match b {
            WzPatchBlock::End => Some((Seq::empty(), next)),
            WzPatchBlock::NewBlock { len } => {
                if next + len > s.len() {
                    None
                } else {
                    match blocks_from(s, next + len) {
                        Some((evs, end)) => Some(
                            (
                                seq![PatchEvent::NewBlock { data: s.subrange(next, next + len) }]
                                    + evs,
                                end,
                            ),
                        ),
                        None => None,
                    }
                }
            },
            WzPatchBlock::Repeat { byte, len } => match blocks_from(s, next) {
                Some((evs, end)) => Some((seq![PatchEvent::Repeat { byte, len }] + evs, end)),
                None => None,
            },
            WzPatchBlock::OldBlock { len, offset } => match blocks_from(s, next) {
                Some((evs, end)) => Some((seq![PatchEvent::OldBlock { offset, len }] + evs, end)),
                None => None,
            },
        },
    }
}

/// The events of the record at `pos` and the position after it: a path ended
/// by its operation byte, then what that operation carries.
pub open spec fn record_at(s: Seq<u8>, pos: int) -> Option<(Seq<PatchEvent>, int)> {
    match path_end(s, pos) {
        None => None,
        Some(t) => {
            let path = latin1(s.subrange(pos, t));
            let q = t + 1;
            if s[t] == 0 {
                if q + 8 > s.len() {
                    None
                } else {
                    let len = le_u32(s, q);
                    let d = q + 8;
                    if d + len > s.len() {
                        None
                    } else {
                        Some(
                            (
                                seq![
                                    PatchEvent::Add {
                                        path,
                                        checksum: le_u32(s, q + 4),
                                        data: s.subrange(d, d + len),
                                    },
                                ],
                                d + len,
                            ),
                        )
                    }
                }
            } else if s[t] == 1 {
                if q + 8 > s.len() {
                    None
                } else {
                    let new_checksum = le_u32(s, q + 4);
                    match blocks_from(s, q + 8) {
                        Some((evs, end)) => Some(
                            (
                                seq![
                                    PatchEvent::Modify {
                                        path,
                                        old_checksum: le_u32(s, q),
                                        new_checksum,
                                    },
                                ] + evs + seq![PatchEvent::End { checksum: new_checksum }],
                                end,
                            ),
                        ),
                        None => None,
                    }
                }
            } else {
                Some((seq![PatchEvent::Remove { path }], q))
            }
        },
    }
}

/// The events of the records from `pos` to the end of the command stream, or
/// `None` when a record is cut short.
pub open spec fn events_from(s: Seq<u8>, pos: int) -> Option<Seq<PatchEvent>>
    decreases s.len() - pos,
{
    if pos < 0 || pos >= s.len() {
        Some(Seq::empty())
    } else {
        match record_at(s, pos) {
            None => None,
            Some((evs, next)) => {
                if next <= pos || next > s.len() {
                    None
                } else {
                    match events_from(s, next) {
                        Some(rest) => Some(evs + rest),
                        None => None,
                    }
                }
            },
        }
    }
}

/// The events of a whole decompressed command stream.
pub open spec fn patch_events(s: Seq<u8>) -> Option<Seq<PatchEvent>> {
    events_from(s, 0)
}

} // verus!

verus! {

/// The path of a file that a patch record names; one character per byte.
#[derive(Clone, Debug)]
pub struct WzPatchFilePath(pub String);

impl WzPatchFilePath {
    /// Reads a path at `pos` of `data`: the bytes up to the first 0, 1 or 2,
    /// which ends it and names the operation. Returns the path, the operation
    /// byte and the position after it.
    pub fn read(data: &[u8], pos: usize) -> (r: Result<(WzPatchFilePath, u8, usize), Error>)
        ensures
            match path_end(data@, pos as int) {
                Some(t) => r is Ok && r->Ok_0.0.0@ == latin1(data@.subrange(pos as int, t))
                    && r->Ok_0.1 == data@[t] && r->Ok_0.2 == t + 1,
                None => r == Err::<(WzPatchFilePath, u8, usize), Error>(Error::TruncatedStream),
            },
    {
        let mut i: usize = pos;
        while i < data.len() && data[i] > 2
            invariant
                pos <= i,
                i <= data@.len() || i == pos,
                path_end(data@, pos as int) == path_end(data@, i as int),
                forall|j: int| pos <= j < i ==> data@[j] > 2,
            decreases data@.len() - i,
        {
            i = i + 1;
        }
        if i >= data.len() {
            return Err(Error::TruncatedStream);
        }
        let name = latin1_string(&data[pos..i]);
        Ok((WzPatchFilePath(name), data[i], i + 1))
    }
}

/// The literal bytes that an add record or a new-file block carries.
#[derive(Clone, Debug)]
pub struct WzPatchDataStream {
    data: Vec<u8>,
    len: u32,
    checksum: u32,
}

impl WzPatchDataStream {
    /// The bytes and what the record declares of them.
    pub closed spec fn bytes(&self) -> Seq<u8> {
        self.data@
    }

    pub closed spec fn spec_len(&self) -> u32 {
        self.len
    }

    pub closed spec fn spec_checksum(&self) -> u32 {
        self.checksum
    }

    pub fn new(data: Vec<u8>, len: u32, checksum: u32) -> (r: WzPatchDataStream)
        ensures
            r.bytes() == data@,
            r.spec_len() == len,
            r.spec_checksum() == checksum,
    {
        WzPatchDataStream { data, len, checksum }
    }

    /// A copy with the same bytes and declared fields.
    pub fn copy(&self) -> (r: WzPatchDataStream)
        ensures
            r.bytes() == self.bytes(),
            r.spec_len() == self.spec_len(),
            r.spec_checksum() == self.spec_checksum(),
    {
        let bytes = copy_range(self.data.as_slice(), 0, self.data.len());
        assert(self.data@.subrange(0, self.data@.len() as int) =~= self.data@);
        WzPatchDataStream { data: bytes, len: self.len, checksum: self.checksum }
    }

    /// The number of bytes the record declares.
    pub fn len(&self) -> (r: u32)
        ensures
            r == self.spec_len(),
    {
        self.len
    }

    /// The checksum the record declares (0 for a new-file block).
    pub fn checksum(&self) -> (r: u32)
        ensures
            r == self.spec_checksum(),
    {
        self.checksum
    }

    /// The literal bytes.
    pub fn data(&self) -> (r: &[u8])
        ensures
            r@ == self.bytes(),
    {
        self.data.as_slice()
    }
}

/// One thing a patch tells its handler, in stream order.
#[derive(Clone, Debug)]
pub enum WzPatchEvent {
    Add { path: WzPatchFilePath, data: WzPatchDataStream },
    Remove { path: WzPatchFilePath },
    Modify { path: WzPatchFilePath, old_checksum: u32, new_checksum: u32 },
    Repeat { byte: u8, len: u32 },
    NewBlock { data: WzPatchDataStream },
    OldBlock { offset: u32, len: u32 },
    End { checksum: u32 },
}

impl View for WzPatchEvent {
    type V = PatchEvent;

    open spec fn view(&self) -> PatchEvent {
        match self {
            WzPatchEvent::Add { path, data } => PatchEvent::Add {
                path: path.0@,
                checksum: data.spec_checksum(),
                data: data.bytes(),
            },
            WzPatchEvent::Remove { path } => PatchEvent::Remove { path: path.0@ },
            WzPatchEvent::Modify { path, old_checksum, new_checksum } => PatchEvent::Modify {
                path: path.0@,
                old_checksum: *old_checksum,
                new_checksum: *new_checksum,
            },
            WzPatchEvent::Repeat { byte, len } => PatchEvent::Repeat { byte: *byte, len: *len },
            WzPatchEvent::NewBlock { data } => PatchEvent::NewBlock { data: data.bytes() },
            WzPatchEvent::OldBlock { offset, len } => PatchEvent::OldBlock {
                offset: *offset,
                len: *len,
            },
            WzPatchEvent::End { checksum } => PatchEvent::End { checksum: *checksum },
        }
    }
}

/// The models of a sequence of events.
pub open spec fn event_models(v: Seq<WzPatchEvent>) -> Seq<PatchEvent> {
    v.map_values(|e: WzPatchEvent| e@)
}

/// Appends one event and keeps track of the models.
fn push_event(out: &mut Vec<WzPatchEvent>, e: WzPatchEvent)
    ensures
        event_models(final(out)@) == event_models(old(out)@) + seq![e@],
{
    out.push(e);
    assert(event_models(out@) =~= event_models(old(out)@) + seq![e@]);
}

/// Reads the modify program at `pos` into `out`, up to and including its end
/// marker (which is not pushed). Returns the position after the end marker.
fn read_blocks(data: &[u8], pos: usize, out: &mut Vec<WzPatchEvent>) -> (r: Result<usize, Error>)
    ensures
        match blocks_from(data@, pos as int) {
            Some((evs, end)) => r is Ok && r->Ok_0 == end && event_models(final(out)@)
                == event_models(old(out)@) + evs,
            None => r == Err::<usize, Error>(Error::TruncatedStream),
        },
{
    let mut p: usize = pos;
    let ghost prefix: Seq<PatchEvent> = Seq::empty();
    loop
        invariant
            p <= data@.len() || p == pos,
            event_models(out@) == event_models(old(out)@) + prefix,
            blocks_from(data@, pos as int) == match blocks_from(data@, p as int) {
                Some((evs, end)) => Some((prefix + evs, end)),
                None => None,
            },
        decreases data@.len() - p,
    {
        let (block, next) = WzPatchBlock::read(data, p)?;
        assert(block_at(data@, p as int) == Some((block, next as int)));
        assert(p < next <= data@.len());
        match block {
            WzPatchBlock::End => {
                assert(prefix + Seq::<PatchEvent>::empty() =~= prefix);
                return Ok(next);
            },
            WzPatchBlock::NewBlock { len } => {
                if len as usize > data.len() - next {
                    return Err(Error::TruncatedStream);
                }
                let end = next + len as usize;
                let bytes = copy_range(data, next, end);
                let e = WzPatchEvent::NewBlock { data: WzPatchDataStream::new(bytes, len, 0) };
                push_event(out, e);
                proof {
                    let ev = PatchEvent::NewBlock { data: data@.subrange(next as int, end as int) };
                    assert(e@ == ev);
                    match blocks_from(data@, end as int) {
                        Some((evs, fin)) => {
                            assert(prefix + (seq![ev] + evs) =~= (prefix + seq![ev]) + evs);
                        },
                        None => {},
                    }
                    prefix = prefix + seq![ev];
                }
                p = end;
            },
            WzPatchBlock::Repeat { byte, len } => {
                let e = WzPatchEvent::Repeat { byte, len };
                push_event(out, e);
                proof {
                    let ev = PatchEvent::Repeat { byte, len };
                    match blocks_from(data@, next as int) {
                        Some((evs, fin)) => {
                            assert(prefix + (seq![ev] + evs) =~= (prefix + seq![ev]) + evs);
                        },
                        None => {},
                    }
                    prefix = prefix + seq![ev];
                }
                p = next;
            },
            WzPatchBlock::OldBlock { len, offset } => {
                let e = WzPatchEvent::OldBlock { offset, len };
                push_event(out, e);
                proof {
                    let ev = PatchEvent::OldBlock { offset, len };
                    match blocks_from(data@, next as int) {
                        Some((evs, fin)) => {
                            assert(prefix + (seq![ev] + evs) =~= (prefix + seq![ev]) + evs);
                        },
                        None => {},
                    }
                    prefix = prefix + seq![ev];
                }
                p = next;
            },
        }
    }
}

} // verus!

verus! {

/// What a record does to its file.
#[derive(Clone, Copy, Debug, PartialEq, Eq, Structural)]
pub enum WzPatchOp {
    AddFile { len: u32, checksum: u32 },
    RemoveFile,
    ModifyFile { old_checksum: u32, new_checksum: u32 },
}

/// The header of a record: the file and the operation on it.
#[derive(Clone, Debug)]
pub struct WzPatchFile {
    pub file: WzPatchFilePath,
    pub op: WzPatchOp,
}

/// The operation of a record whose path ends at `t`.
pub open spec fn op_at(s: Seq<u8>, t: int) -> WzPatchOp {
    if s[t] == 0 {
        WzPatchOp::AddFile { len: le_u32(s, t + 1), checksum: le_u32(s, t + 5) }
    } else if s[t] == 1 {
        WzPatchOp::ModifyFile { old_checksum: le_u32(s, t + 1), new_checksum: le_u32(s, t + 5) }
    } else {
        WzPatchOp::RemoveFile
    }
}

impl WzPatchFile {
    /// Reads a record header at `pos`: the path, the operation byte, and for an
    /// add or a modify two little-endian words. Returns the header and the
    /// position after it.
    pub fn read(data: &[u8], pos: usize) -> (r: Result<(WzPatchFile, usize), Error>)
        ensures
            match path_end(data@, pos as int) {
                Some(t) => if data@[t] == 2 {
                    r is Ok && r->Ok_0.0.file.0@ == latin1(data@.subrange(pos as int, t))
                        && r->Ok_0.0.op == WzPatchOp::RemoveFile && r->Ok_0.1 == t + 1
                } else if t + 9 > data@.len() {
                    r == Err::<(WzPatchFile, usize), Error>(Error::TruncatedStream)
                } else {
                    r is Ok && r->Ok_0.0.file.0@ == latin1(data@.subrange(pos as int, t))
                        && r->Ok_0.0.op == op_at(data@, t) && r->Ok_0.1 == t + 9
                },
                None => r == Err::<(WzPatchFile, usize), Error>(Error::TruncatedStream),
            },
    {
        proof {
            lemma_path_end_after(data@, pos as int);
        }
        let (file, op, q) = WzPatchFilePath::read(data, pos)?;
        if op == 2 {
            return Ok((WzPatchFile { file, op: WzPatchOp::RemoveFile }, q));
        }
        if data.len() < 8 || q > data.len() - 8 {
            return Err(Error::TruncatedStream);
        }
        let a = read_u32_le(data, q);
        let b = read_u32_le(data, q + 4);
        let op = if op == 0 {
            WzPatchOp::AddFile { len: a, checksum: b }
        } else {
            WzPatchOp::ModifyFile { old_checksum: a, new_checksum: b }
        };
        Ok((WzPatchFile { file, op }, q + 8))
    }
}

/// Reads the record at `pos` into `out` and returns the position after it.
fn read_record(data: &[u8], pos: usize, out: &mut Vec<WzPatchEvent>) -> (r: Result<usize, Error>)
    ensures
        match record_at(data@, pos as int) {
            Some((evs, next)) => r is Ok && r->Ok_0 == next && event_models(final(out)@)
                == event_models(old(out)@) + evs,
            None => r == Err::<usize, Error>(Error::TruncatedStream),
        },
{
    proof {
        lemma_path_end_after(data@, pos as int);
    }
    let (file, q) = WzPatchFile::read(data, pos)?;
    match file.op {
        WzPatchOp::RemoveFile => {
            let e = WzPatchEvent::Remove { path: file.file };
            push_event(out, e);
            Ok(q)
        },
        WzPatchOp::AddFile { len, checksum } => {
            if len as usize > data.len() - q {
                return Err(Error::TruncatedStream);
            }
            let end = q + len as usize;
            let bytes = copy_range(data, q, end);
            let e = WzPatchEvent::Add {
                path: file.file,
                data: WzPatchDataStream::new(bytes, len, checksum),
            };
            push_event(out, e);
            Ok(end)
        },
        WzPatchOp::ModifyFile { old_checksum, new_checksum } => {
            let e = WzPatchEvent::Modify { path: file.file, old_checksum, new_checksum };
            push_event(out, e);
            let end = read_blocks(data, q, out)?;
            push_event(out, WzPatchEvent::End { checksum: new_checksum });
            proof {
                let (evs, fin) = blocks_from(data@, q as int)->0;
                assert(event_models(out@) =~= event_models(old(out)@) + (seq![e@] + evs + seq![
                    PatchEvent::End { checksum: new_checksum },
                ]));
            }
            Ok(end)
        },
    }
}

/// The decompressed command stream of a patch.
#[derive(Debug)]
pub struct WzPatchStream {
    data: Vec<u8>,
}

impl WzPatchStream {
    /// The decompressed bytes.
    pub closed spec fn bytes(&self) -> Seq<u8> {
        self.data@
    }

    /// A stream over already decompressed bytes.
    pub fn new(data: Vec<u8>) -> (r: WzPatchStream)
        ensures
            r.bytes() == data@,
    {
        WzPatchStream { data }
    }

    /// Every event of the stream, in order. The stream must end cleanly at a
    /// record boundary; a record cut short is an error.
    pub fn events(&self) -> (r: Result<Vec<WzPatchEvent>, Error>)
        ensures
            match patch_events(self.bytes()) {
                Some(evs) => r is Ok && event_models(r->Ok_0@) == evs,
                None => r == Err::<Vec<WzPatchEvent>, Error>(Error::TruncatedStream),
            },
    {
        let data = self.data.as_slice();
        let mut out: Vec<WzPatchEvent> = Vec::new();
        let mut p: usize = 0;
        while p < data.len()
            invariant
                data@ == self.bytes(),
                p <= data@.len(),
                patch_events(data@) == match events_from(data@, p as int) {
                    Some(rest) => Some(event_models(out@) + rest),
                    None => None,
                },
            decreases data@.len() - p,
        {
            let ghost before = event_models(out@);
            let next = read_record(data, p, &mut out)?;
            proof {
                let (evs, n) = record_at(data@, p as int)->0;
                lemma_record_progress(data@, p as int);
                match events_from(data@, next as int) {
                    Some(rest) => {
                        assert(before + (evs + rest) =~= (before + evs) + rest);
                    },
                    None => {},
                }
            }
            p = next;
        }
        assert(event_models(out@) + Seq::<PatchEvent>::empty() =~= event_models(out@));
        Ok(out)
    }
}

/// A record ends after the byte it starts at.
proof fn lemma_path_end_after(s: Seq<u8>, pos: int)
    ensures
        path_end(s, pos) matches Some(t) ==> pos <= t < s.len() && s[t] <= 2,
    decreases s.len() - pos,
{
    if 0 <= pos < s.len() && s[pos] > 2 {
        lemma_path_end_after(s, pos + 1);
    }
}

/// A modify program ends after the position it starts at, within the stream.
proof fn lemma_blocks_progress(s: Seq<u8>, pos: int)
    ensures
        blocks_from(s, pos) matches Some((evs, end)) ==> pos < end <= s.len(),
    decreases s.len() - pos,
{
    match block_at(s, pos) {
        None => {},
        Some((b, next)) => match b {
            WzPatchBlock::End => {},
            WzPatchBlock::NewBlock { len } => {
                if next + len <= s.len() {
                    lemma_blocks_progress(s, next + len);
                }
            },
            _ => {
                lemma_blocks_progress(s, next);
            },
        },
    }
}

/// A record ends after the position it starts at, within the stream.
proof fn lemma_record_progress(s: Seq<u8>, pos: int)
    ensures
        record_at(s, pos) matches Some((evs, next)) ==> pos < next <= s.len(),
{
    lemma_path_end_after(s, pos);
    if let Some(t) = path_end(s, pos) {
        lemma_blocks_progress(s, t + 9);
    }
}

} // verus!

verus! {

/// The decompressed bytes of a zlib stream, or `None` when it is malformed.
pub uninterp spec fn zlib_inflate(s: Seq<u8>) -> Option<Seq<u8>>;

/// Relies on `flate2::bufread::ZlibDecoder`: read to its end, it yields the
/// decompressed bytes of the zlib stream over `data`, or an error when the
/// stream is malformed.
#[verifier::external_body]
fn inflate_zlib(data: &[u8]) -> (r: Option<Vec<u8>>)
    ensures
        r is Some <==> zlib_inflate(data@) is Some,
        r is Some ==> r->0@ == zlib_inflate(data@)->0,
{
    let mut out = Vec::new();
    match std::io::Read::read_to_end(&mut ::flate2::bufread::ZlibDecoder::new(data), &mut out) {
        Ok(_) => Some(out),
        Err(_) => None,
    }
}

/// The eight bytes `WzPatch\x1A` that open a patch file.
pub open spec fn wz_patch_magic() -> Seq<u8> {
    seq![0x57u8, 0x7Au8, 0x50u8, 0x61u8, 0x74u8, 0x63u8, 0x68u8, 0x1Au8]
}

/// The size of the header: magic, version and checksum.
pub const WZ_PATCH_HDR_LEN: usize = 16;

/// The fixed header of a patch file.
#[derive(Clone, Copy, Debug, PartialEq, Eq, Structural)]
pub struct WzPatchHdr {
    pub version: i32,
    pub checksum: u32,
}

/// Checks the magic at the start of `data`.
fn has_patch_magic(data: &[u8]) -> (r: bool)
    requires
        data@.len() >= 8,
    ensures
        r == (data@.subrange(0, 8) == wz_patch_magic()),
{
    let ok = data[0] == 0x57 && data[1] == 0x7A && data[2] == 0x50 && data[3] == 0x61 && data[4]
        == 0x74 && data[5] == 0x63 && data[6] == 0x68 && data[7] == 0x1A;
    assert(ok ==> data@.subrange(0, 8) =~= wz_patch_magic());
    assert(data@.subrange(0, 8) == wz_patch_magic() ==> data@.subrange(0, 8)[7] == 0x1Au8);
    ok
}

impl WzPatchHdr {
    /// Reads the header at the start of `data`.
    pub fn read(data: &[u8]) -> (r: Result<WzPatchHdr, Error>)
        ensures
            data@.len() < 8 ==> r == Err::<WzPatchHdr, Error>(Error::TruncatedStream),
            data@.len() >= 8 && data@.subrange(0, 8) != wz_patch_magic() ==> r == Err::<
                WzPatchHdr,
                Error,
            >(Error::BadMagic),
            data@.len() >= 8 && data@.subrange(0, 8) == wz_patch_magic() && data@.len() < 16
                ==> r == Err::<WzPatchHdr, Error>(Error::TruncatedStream),
            data@.len() >= 16 && data@.subrange(0, 8) == wz_patch_magic() ==> r == Ok::<
                WzPatchHdr,
                Error,
            >(WzPatchHdr { version: le_u32(data@, 8) as i32, checksum: le_u32(data@, 12) }),
    {
        if data.len() < 8 {
            return Err(Error::TruncatedStream);
        }
        if !has_patch_magic(data) {
            return Err(Error::BadMagic);
        }
        if data.len() < WZ_PATCH_HDR_LEN {
            return Err(Error::TruncatedStream);
        }
        let version = read_u32_le(data, 8) as i32;
        let checksum = read_u32_le(data, 12);
        Ok(WzPatchHdr { version, checksum })
    }
}

/// A patch file held in memory.
#[derive(Debug)]
pub struct WzPatch {
    data: Vec<u8>,
    hdr: WzPatchHdr,
    data_offset: usize,
}

impl WzPatch {
    /// The whole file.
    pub closed spec fn bytes(&self) -> Seq<u8> {
        self.data@
    }

    pub closed spec fn header(&self) -> WzPatchHdr {
        self.hdr
    }

    /// The compressed command stream: everything after the header.
    pub open spec fn body(&self) -> Seq<u8> {
        self.bytes().subrange(WZ_PATCH_HDR_LEN as int, self.bytes().len() as int)
    }

    pub closed spec fn wf(&self) -> bool {
        &&& self.data_offset == WZ_PATCH_HDR_LEN
        &&& self.data@.len() >= WZ_PATCH_HDR_LEN
        &&& self.hdr == WzPatchHdr { version: le_u32(self.data@, 8) as i32, checksum: le_u32(self.data@, 12) }
    }

    /// Opens the patch held in `data`, reading its header.
    pub fn new(data: Vec<u8>) -> (r: Result<WzPatch, Error>)
        ensures
            match WzPatchHdr::read_spec(data@) {
                Ok(hdr) => r is Ok && r->Ok_0.wf() && r->Ok_0.bytes() == data@ && r->Ok_0.header() == hdr,
                Err(e) => r == Err::<WzPatch, Error>(e),
            },
    {
        let hdr = WzPatchHdr::read(data.as_slice())?;
        Ok(WzPatch { data, hdr, data_offset: WZ_PATCH_HDR_LEN })
    }

    /// The version the header records.
    pub fn version(&self) -> (r: i32)
        ensures
            r == self.header().version,
    {
        self.hdr.version
    }

    /// Checks the CRC of the compressed command stream against the header.
    pub fn verify_checksum(&self) -> (r: Result<(), Error>)
        requires
            self.wf(),
        ensures
            r is Ok <==> crate::crc::crc32_wz(self.body()) == self.header().checksum,
            r is Err ==> r == Err::<(), Error>(
                Error::ChecksumMismatch {
                    expected: self.header().checksum,
                    got: crate::crc::crc32_wz(self.body()),
                    scope: ChecksumScope::PatchPayload,
                },
            ),
    {
        let body = &self.data.as_slice()[self.data_offset..self.data.len()];
        wz_patch_verify_crc(body, self.hdr.checksum, ChecksumScope::PatchPayload)
    }

    /// Decompresses the command stream.
    pub fn patch_stream(&self) -> (r: Result<WzPatchStream, Error>)
        requires
            self.wf(),
        ensures
            match zlib_inflate(self.body()) {
                Some(s) => r is Ok && r->Ok_0.bytes() == s,
                None => r == Err::<WzPatchStream, Error>(Error::Decompress),
            },
    {
        let body = &self.data.as_slice()[self.data_offset..self.data.len()];
        match inflate_zlib(body) {
            Some(plain) => Ok(WzPatchStream::new(plain)),
            None => Err(Error::Decompress),
        }
    }

    /// Decompresses the command stream and hands every event to `handler`, in
    /// stream order.
    pub fn process<H: WzPatchHandler>(&self, handler: &mut H) -> (r: Result<(), Error>)
        requires
            self.wf(),
        ensures
            zlib_inflate(self.body()) is None ==> r == Err::<(), Error>(Error::Decompress)
                && final(handler).log() == old(handler).log(),
            zlib_inflate(self.body()) matches Some(s) ==> (patch_events(s) is None ==> r == Err::<
                (),
                Error,
            >(Error::TruncatedStream) && final(handler).log() == old(handler).log()),
            zlib_inflate(self.body()) matches Some(s) ==> (patch_events(s) matches Some(evs)
                ==> handed_over(*old(handler), *final(handler), evs, r)),
            zlib_inflate(self.body()) matches Some(s) ==> (patch_events(s) == Some(Seq::<PatchEvent>::empty())
                ==> r == Ok::<(), Error>(())),
            r is Ok ==> (zlib_inflate(self.body()) matches Some(s) && patch_events(s) is Some),
            old(handler).inv() ==> final(handler).inv(),
    {
        let stream = match self.patch_stream() {
            Ok(st) => st,
            Err(e) => {
                return Err(e);
            },
        };
        stream.process(handler)
    }
}

impl WzPatchHdr {
    /// What [`WzPatchHdr::read`] returns on `s`.
    pub open spec fn read_spec(s: Seq<u8>) -> Result<WzPatchHdr, Error> {
        if s.len() < 8 {
            Err(Error::TruncatedStream)
        } else if s.subrange(0, 8) != wz_patch_magic() {
            Err(Error::BadMagic)
        } else if s.len() < 16 {
            Err(Error::TruncatedStream)
        } else {
            Ok(WzPatchHdr { version: le_u32(s, 8) as i32, checksum: le_u32(s, 12) })
        }
    }
}

/// Receives the events of a patch. Literal bytes arrive whole.
pub trait WzPatchHandler: Sized {
    /// The events the handler has accepted so far, in order. A method that
    /// returns `Ok` appends its event; one that returns an error appends none.
    spec fn log(&self) -> Seq<PatchEvent>;

    /// What the handler keeps true of its state and its log; every method
    /// preserves it.
    spec fn inv(&self) -> bool;

    /// Whether the handler in this state takes the event `e`.
    spec fn accepts(&self, e: PatchEvent) -> bool;

    /// The error with which the handler in this state refuses the event `e`.
    spec fn refusal(&self, e: PatchEvent) -> Error;

    fn handle_add(&mut self, p: &WzPatchFilePath, data: &WzPatchDataStream) -> (r: Result<(), Error>)
        ensures
            r is Ok <==> old(self).accepts(PatchEvent::Add { path: p.0@, checksum: data.spec_checksum(), data: data.bytes() }),
            r is Ok ==> final(self).log() == old(self).log().push(PatchEvent::Add { path: p.0@, checksum: data.spec_checksum(), data: data.bytes() }),
            r is Err ==> *final(self) == *old(self) && r == Err::<(), Error>(old(self).refusal(PatchEvent::Add { path: p.0@, checksum: data.spec_checksum(), data: data.bytes() })),
            old(self).inv() ==> final(self).inv(),
    ;

    fn handle_remove(&mut self, p: &WzPatchFilePath) -> (r: Result<(), Error>)
        ensures
            r is Ok <==> old(self).accepts(PatchEvent::Remove { path: p.0@ }),
            r is Ok ==> final(self).log() == old(self).log().push(PatchEvent::Remove { path: p.0@ }),
            r is Err ==> *final(self) == *old(self) && r == Err::<(), Error>(old(self).refusal(PatchEvent::Remove { path: p.0@ })),
            old(self).inv() ==> final(self).inv(),
    ;

    fn handle_modify(&mut self, p: &WzPatchFilePath, old_checksum: u32, new_checksum: u32) -> (r: Result<(), Error>)
        ensures
            r is Ok <==> old(self).accepts(PatchEvent::Modify { path: p.0@, old_checksum, new_checksum }),
            r is Ok ==> final(self).log() == old(self).log().push(PatchEvent::Modify { path: p.0@, old_checksum, new_checksum }),
            r is Err ==> *final(self) == *old(self) && r == Err::<(), Error>(old(self).refusal(PatchEvent::Modify { path: p.0@, old_checksum, new_checksum })),
            old(self).inv() ==> final(self).inv(),
    ;

    fn handle_mod_repeat(&mut self, byte: u8, len: u32) -> (r: Result<(), Error>)
        ensures
            r is Ok <==> old(self).accepts(PatchEvent::Repeat { byte, len }),
            r is Ok ==> final(self).log() == old(self).log().push(PatchEvent::Repeat { byte, len }),
            r is Err ==> *final(self) == *old(self) && r == Err::<(), Error>(old(self).refusal(PatchEvent::Repeat { byte, len })),
            old(self).inv() ==> final(self).inv(),
    ;

    fn handle_mod_new_block(&mut self, data: &WzPatchDataStream) -> (r: Result<(), Error>)
        ensures
            r is Ok <==> old(self).accepts(PatchEvent::NewBlock { data: data.bytes() }),
            r is Ok ==> final(self).log() == old(self).log().push(PatchEvent::NewBlock { data: data.bytes() }),
            r is Err ==> *final(self) == *old(self) && r == Err::<(), Error>(old(self).refusal(PatchEvent::NewBlock { data: data.bytes() })),
            old(self).inv() ==> final(self).inv(),
    ;

    fn handle_mod_old_block(&mut self, offset: u32, len: u32) -> (r: Result<(), Error>)
        ensures
            r is Ok <==> old(self).accepts(PatchEvent::OldBlock { offset, len }),
            r is Ok ==> final(self).log() == old(self).log().push(PatchEvent::OldBlock { offset, len }),
            r is Err ==> *final(self) == *old(self) && r == Err::<(), Error>(old(self).refusal(PatchEvent::OldBlock { offset, len })),
            old(self).inv() ==> final(self).inv(),
    ;

    fn handle_mod_end(&mut self, checksum: u32) -> (r: Result<(), Error>)
        ensures
            r is Ok <==> old(self).accepts(PatchEvent::End { checksum }),
            r is Ok ==> final(self).log() == old(self).log().push(PatchEvent::End { checksum }),
            r is Err ==> *final(self) == *old(self) && r == Err::<(), Error>(old(self).refusal(PatchEvent::End { checksum })),
            old(self).inv() ==> final(self).inv(),
    ;
}

/// Hands one event to the matching method of `handler`.
pub fn dispatch<H: WzPatchHandler>(handler: &mut H, e: &WzPatchEvent) -> (r: Result<(), Error>)
    ensures
        r is Ok <==> old(handler).accepts(e@),
        r is Ok ==> final(handler).log() == old(handler).log().push(e@),
        r is Err ==> *final(handler) == *old(handler) && r == Err::<(), Error>(old(handler).refusal(e@)),
        old(handler).inv() ==> final(handler).inv(),
{
    match e {
        WzPatchEvent::Add { path, data } => handler.handle_add(path, data),
        WzPatchEvent::Remove { path } => handler.handle_remove(path),
        WzPatchEvent::Modify { path, old_checksum, new_checksum } => handler.handle_modify(
            path,
            *old_checksum,
            *new_checksum,
        ),
        WzPatchEvent::Repeat { byte, len } => handler.handle_mod_repeat(*byte, *len),
        WzPatchEvent::NewBlock { data } => handler.handle_mod_new_block(data),
        WzPatchEvent::OldBlock { offset, len } => handler.handle_mod_old_block(*offset, *len),
        WzPatchEvent::End { checksum } => handler.handle_mod_end(*checksum),
    }
}

/// What handing the events `evs` to a handler, from state `before` to state
/// `after`, with result `r`, means: on success the handler accepted them all,
/// in order; an error is the refusal of event `k` by the handler, returned as
/// it is, with exactly the events before it accepted and none after.
pub open spec fn handed_over<H: WzPatchHandler>(before: H, after: H, evs: Seq<PatchEvent>, r: Result<(), Error>) -> bool {
    match r {
        Ok(_) => after.log() == before.log() + evs,
        Err(e) => exists|k: int|
            0 <= k < evs.len() && after.log() == before.log() + evs.subrange(0, k) && !after.accepts(
                #[trigger] evs[k],
            ) && e == after.refusal(evs[k]),
    }
}

impl WzPatchStream {
    /// Hands every event of the stream to `handler`, in order, stopping at the
    /// first error. Nothing is handed over when the stream is cut short.
    pub fn process<H: WzPatchHandler>(&self, handler: &mut H) -> (r: Result<(), Error>)
        ensures
            patch_events(self.bytes()) is None ==> r == Err::<(), Error>(Error::TruncatedStream)
                && *final(handler) == *old(handler),
            patch_events(self.bytes()) matches Some(evs) ==> handed_over(*old(handler), *final(handler), evs, r),
            patch_events(self.bytes()) == Some(Seq::<PatchEvent>::empty()) ==> r == Ok::<(), Error>(()),
            r is Ok ==> patch_events(self.bytes()) is Some,
            old(handler).inv() ==> final(handler).inv(),
    {
        let events = match self.events() {
            Ok(ev) => ev,
            Err(e) => {
                return Err(e);
            },
        };
        let ghost evs = event_models(events@);
        let mut i: usize = 0;
        while i < events.len()
            invariant
                i <= events@.len(),
                patch_events(self.bytes()) == Some(evs),
                evs == event_models(events@),
                handler.log() == old(handler).log() + evs.subrange(0, i as int),
                old(handler).inv() ==> handler.inv(),
            decreases events@.len() - i,
        {
            let r = dispatch(handler, &events[i]);
            if r.is_err() {
                assert(evs[i as int] == events@[i as int]@);
                return r;
            }
            assert(evs.subrange(0, i + 1) =~= evs.subrange(0, i as int).push(events@[i as int]@));
            i = i + 1;
        }
        assert(evs.subrange(0, i as int) =~= evs);
        Ok(())
    }
}

} // verus!

verus! {

/// Whether an event is a step of a modify program.
pub open spec fn is_block_event(e: PatchEvent) -> bool {
    e is Repeat || e is NewBlock || e is OldBlock
}

/// Whether `evs` follows the handler protocol: outside a modify transaction
/// only adds, removes and the start of a modify come; inside one only block
/// steps come, until exactly one end closes it. `open_modify` says whether a
/// transaction is open before `evs`.
pub open spec fn protocol_ok(evs: Seq<PatchEvent>, open_modify: bool) -> bool
    decreases evs.len(),
{
    if evs.len() == 0 {
        !open_modify
    } else {
        let rest = evs.drop_first();
        match evs[0] {
            PatchEvent::Add { .. } => !open_modify && protocol_ok(rest, false),
            PatchEvent::Remove { .. } => !open_modify && protocol_ok(rest, false),
            PatchEvent::Modify { .. } => !open_modify && protocol_ok(rest, true),
            PatchEvent::End { .. } => open_modify && protocol_ok(rest, false),
            _ => open_modify && protocol_ok(rest, true),
        }
    }
}

proof fn lemma_blocks_are_steps(s: Seq<u8>, pos: int)
    ensures
        blocks_from(s, pos) matches Some((evs, end)) ==> forall|i: int|
            0 <= i < evs.len() ==> is_block_event(#[trigger] evs[i]),
    decreases s.len() - pos,
{
    match block_at(s, pos) {
        None => {},
        Some((b, next)) => match b {
            WzPatchBlock::End => {},
            WzPatchBlock::NewBlock { len } => {
                if next + len <= s.len() {
                    lemma_blocks_are_steps(s, next + len);
                    if let Some((evs, end)) = blocks_from(s, next + len) {
                        let all = seq![PatchEvent::NewBlock { data: s.subrange(next, next + len) }]
                            + evs;
                        assert forall|i: int| 0 <= i < all.len() implies is_block_event(
                            #[trigger] all[i],
                        ) by {
                            if i > 0 {
                                assert(all[i] == evs[i - 1]);
                            }
                        }
                    }
                }
            },
            WzPatchBlock::Repeat { byte, len } => {
                lemma_blocks_are_steps(s, next);
                if let Some((evs, end)) = blocks_from(s, next) {
                    let all = seq![PatchEvent::Repeat { byte, len }] + evs;
                    assert forall|i: int| 0 <= i < all.len() implies is_block_event(
                        #[trigger] all[i],
                    ) by {
                        if i > 0 {
                            assert(all[i] == evs[i - 1]);
                        }
                    }
                }
            },
            WzPatchBlock::OldBlock { len, offset } => {
                lemma_blocks_are_steps(s, next);
                if let Some((evs, end)) = blocks_from(s, next) {
                    let all = seq![PatchEvent::OldBlock { offset, len }] + evs;
                    assert forall|i: int| 0 <= i < all.len() implies is_block_event(
                        #[trigger] all[i],
                    ) by {
                        if i > 0 {
                            assert(all[i] == evs[i - 1]);
                        }
                    }
                }
            },
        },
    }
}

proof fn lemma_protocol_transaction(steps: Seq<PatchEvent>, checksum: u32, rest: Seq<PatchEvent>)
    requires
        forall|i: int| 0 <= i < steps.len() ==> is_block_event(#[trigger] steps[i]),
        protocol_ok(rest, false),
    ensures
        protocol_ok(steps + seq![PatchEvent::End { checksum }] + rest, true),
    decreases steps.len(),
{
    let all = steps + seq![PatchEvent::End { checksum }] + rest;
    if steps.len() == 0 {
        assert(all.drop_first() =~= rest);
    } else {
        let tail = steps.drop_first();
        assert forall|i: int| 0 <= i < tail.len() implies is_block_event(#[trigger] tail[i]) by {
            assert(tail[i] == steps[i + 1]);
        }
        lemma_protocol_transaction(tail, checksum, rest);
        assert(all.drop_first() =~= tail + seq![PatchEvent::End { checksum }] + rest);
        assert(is_block_event(steps[0]));
        assert(all[0] == steps[0]);
    }
}

proof fn lemma_events_follow_protocol(s: Seq<u8>, pos: int)
    ensures
        events_from(s, pos) matches Some(evs) ==> protocol_ok(evs, false),
    decreases s.len() - pos,
{
    if 0 <= pos < s.len() {
        if let Some((evs, next)) = record_at(s, pos) {
            if pos < next <= s.len() {
                lemma_events_follow_protocol(s, next);
                if let Some(rest) = events_from(s, next) {
                    lemma_path_end_after(s, pos);
                    let t = path_end(s, pos)->0;
                    let all = evs + rest;
                    if s[t] == 1 {
                        let (steps, end) = blocks_from(s, t + 9)->0;
                        let new_checksum = le_u32(s, t + 5);
                        lemma_blocks_are_steps(s, t + 9);
                        lemma_protocol_transaction(steps, new_checksum, rest);
                        assert(all.drop_first() =~= steps + seq![
                            PatchEvent::End { checksum: new_checksum },
                        ] + rest);
                    } else {
                        assert(all.drop_first() =~= rest);
                    }
                }
            }
        }
    }
}

/// The events of a command stream follow the handler protocol: each modify
/// record gives exactly one start and one end, with only its block steps
/// between them; each add record and each remove record gives exactly one
/// event of its own.
pub proof fn lemma_visitor_totality(s: Seq<u8>)
    ensures
        patch_events(s) matches Some(evs) ==> protocol_ok(evs, false),
{
    lemma_events_follow_protocol(s, 0);
}

} // verus!

verus! {

/// The text of one event, as [`TextHandler`] writes it; `cur` is the file of
/// the open modify transaction.
pub open spec fn event_text(e: PatchEvent, cur: Seq<char>) -> Seq<char> {
    match e {
        PatchEvent::Add { path, data, .. } => "Add: "@ + path + " len: "@ + decimal(data.len()) + "\n"@,
        PatchEvent::Remove { path } => "Remove: "@ + path + "\n"@,
        PatchEvent::Modify { path, old_checksum, new_checksum } => "Modify: "@ + path + " old: "@
            + decimal(old_checksum as nat) + " new: "@ + decimal(new_checksum as nat) + "\n"@,
        PatchEvent::Repeat { byte, len } => "\t "@ + cur + " - Repeat: "@ + decimal(byte as nat)
            + " len: "@ + decimal(len as nat) + "\n"@,
        PatchEvent::NewBlock { data } => "\t "@ + cur + " - New Block "@ + decimal(data.len()) + "\n"@,
        PatchEvent::OldBlock { offset, len } => "\t "@ + cur + " - Old Block offset: "@ + decimal(
            offset as nat,
        ) + " len: "@ + decimal(len as nat) + "\n"@,
        PatchEvent::End { checksum } => "\t "@ + cur + " - End "@ + decimal(checksum as nat) + "\n"@,
    }
}

/// The file of an open modify transaction, or nothing.
pub open spec fn cur_text(cur: Option<Seq<char>>) -> Seq<char> {
    match cur {
        Some(c) => c,
        None => Seq::empty(),
    }
}

/// The text written for the events `evs`, one line each, and the file of the
/// modify transaction left open.
pub open spec fn text_state(evs: Seq<PatchEvent>) -> (Seq<char>, Option<Seq<char>>)
    decreases evs.len(),
{
    if evs.len() == 0 {
        (Seq::empty(), None)
    } else {
        let prev = text_state(evs.drop_last());
        let e = evs.last();
        (
            prev.0 + event_text(e, cur_text(prev.1)),
            match e {
                PatchEvent::Modify { path, .. } => Some(path),
                PatchEvent::End { .. } => None,
                _ => prev.1,
            },
        )
    }
}

/// Writes every event of a patch as a line of text.
pub struct TextHandler {
    pub w: String,
    pub cur_file: Option<String>,
    /// The events accepted so far.
    pub log: Ghost<Seq<PatchEvent>>,
}

impl Default for TextHandler {
    fn default() -> (r: TextHandler)
        ensures
            r.w@ == Seq::<char>::empty(),
            r.cur_file is None,
            WzPatchHandler::log(&r) == Seq::<PatchEvent>::empty(),
            r.consistent(),
    {
        TextHandler { w: String::new(), cur_file: None, log: Ghost(Seq::empty()) }
    }
}

impl TextHandler {
    /// The open transaction's file as characters.
    pub open spec fn cur_view(&self) -> Option<Seq<char>> {
        match self.cur_file {
            Some(c) => Some(c@),
            None => None,
        }
    }

    /// Whether the text and the open file are those of the accepted events.
    pub open spec fn consistent(&self) -> bool {
        &&& self.w@ == text_state(WzPatchHandler::log(self)).0
        &&& self.cur_view() == text_state(WzPatchHandler::log(self)).1
    }

    /// Appends the line of `e`. Block steps and the end need an open modify
    /// transaction; a modify opens one, the end closes it.
    fn write_line(&mut self, e: &WzPatchEvent) -> (r: Result<(), Error>)
        ensures
            (e@ is Repeat || e@ is NewBlock || e@ is OldBlock || e@ is End) && old(self).cur_file is None
                ==> r == Err::<(), Error>(Error::ProtocolViolation) && final(self).w@ == old(self).w@,
            r is Ok ==> final(self).w@ == old(self).w@ + event_text(
                e@,
                match old(self).cur_file {
                    Some(c) => c@,
                    None => Seq::empty(),
                },
            ),
            r is Ok && e@ is Modify ==> final(self).cur_file is Some && final(self).cur_file->0@ == e@->Modify_path,
            r is Ok && e@ is End ==> final(self).cur_file is None,
            r is Ok && !(e@ is Modify) && !(e@ is End) ==> final(self).cur_view() == old(self).cur_view(),
            !((e@ is Repeat || e@ is NewBlock || e@ is OldBlock || e@ is End) && old(self).cur_file is None)
                ==> r is Ok,
            final(self).log == old(self).log,
            r is Err ==> final(self).w == old(self).w && final(self).cur_file == old(self).cur_file,
    {
        match e {
            WzPatchEvent::Add { path, data } => {
                push_str(&mut self.w, "Add: ");
                push_str(&mut self.w, path.0.as_str());
                push_str(&mut self.w, " len: ");
                push_decimal(&mut self.w, data.data().len() as u64);
                push_str(&mut self.w, "\n");
            },
            WzPatchEvent::Remove { path } => {
                push_str(&mut self.w, "Remove: ");
                push_str(&mut self.w, path.0.as_str());
                push_str(&mut self.w, "\n");
            },
            WzPatchEvent::Modify { path, old_checksum, new_checksum } => {
                push_str(&mut self.w, "Modify: ");
                push_str(&mut self.w, path.0.as_str());
                push_str(&mut self.w, " old: ");
                push_decimal(&mut self.w, *old_checksum as u64);
                push_str(&mut self.w, " new: ");
                push_decimal(&mut self.w, *new_checksum as u64);
                push_str(&mut self.w, "\n");
                self.cur_file = Some(path.0.clone());
            },
            _ => {
                let cur = match &self.cur_file {
                    Some(c) => c.clone(),
                    None => {
                        return Err(Error::ProtocolViolation);
                    },
                };
                push_str(&mut self.w, "\t ");
                push_str(&mut self.w, cur.as_str());
                match e {
                    WzPatchEvent::Repeat { byte, len } => {
                        push_str(&mut self.w, " - Repeat: ");
                        push_decimal(&mut self.w, *byte as u64);
                        push_str(&mut self.w, " len: ");
                        push_decimal(&mut self.w, *len as u64);
                    },
                    WzPatchEvent::NewBlock { data } => {
                        push_str(&mut self.w, " - New Block ");
                        push_decimal(&mut self.w, data.data().len() as u64);
                    },
                    WzPatchEvent::OldBlock { offset, len } => {
                        push_str(&mut self.w, " - Old Block offset: ");
                        push_decimal(&mut self.w, *offset as u64);
                        push_str(&mut self.w, " len: ");
                        push_decimal(&mut self.w, *len as u64);
                    },
                    _ => {
                        let checksum = match e {
                            WzPatchEvent::End { checksum } => *checksum,
                            _ => 0,
                        };
                        push_str(&mut self.w, " - End ");
                        push_decimal(&mut self.w, checksum as u64);
                        self.cur_file = None;
                    },
                }
                push_str(&mut self.w, "\n");
            },
        }
        Ok(())
    }

    /// Appends the line of `e`. Block steps and the end need an open modify
    /// transaction; a modify opens one, the end closes it.
    pub fn write_event(&mut self, e: &WzPatchEvent) -> (r: Result<(), Error>)
        ensures
            (e@ is Repeat || e@ is NewBlock || e@ is OldBlock || e@ is End) && old(self).cur_file is None
                ==> r == Err::<(), Error>(Error::ProtocolViolation) && final(self).w@ == old(self).w@,
            !((e@ is Repeat || e@ is NewBlock || e@ is OldBlock || e@ is End) && old(self).cur_file is None)
                ==> r is Ok,
            r is Ok ==> final(self).w@ == old(self).w@ + event_text(e@, cur_text(old(self).cur_view())),
            r is Ok ==> WzPatchHandler::log(final(self)) == WzPatchHandler::log(old(self)).push(e@),
            r is Err ==> *final(self) == *old(self),
            r is Ok && e@ is Modify ==> final(self).cur_view() == Some(e@->Modify_path),
            r is Ok && e@ is End ==> final(self).cur_file is None,
            r is Ok && !(e@ is Modify) && !(e@ is End) ==> final(self).cur_view() == old(self).cur_view(),
            old(self).consistent() ==> final(self).consistent(),
    {
        let ghost old_log = self.log@;
        let r = self.write_line(e);
        if r.is_ok() {
            self.log = Ghost(old_log.push(e@));
            proof {
                assert(self.log@.drop_last() =~= old_log);
                assert(self.log@.last() == e@);
                if old(self).consistent() {
                    let prev = text_state(old_log);
                    assert(text_state(self.log@).0 == prev.0 + event_text(e@, cur_text(prev.1)));
                    assert(self.w@ == text_state(self.log@).0);
                    match e@ {
                        PatchEvent::Modify { .. } => {},
                        PatchEvent::End { .. } => {},
                        _ => {},
                    }
                    assert(self.cur_view() == text_state(self.log@).1);
                }
            }
        }
        r
    }
}

impl WzPatchHandler for TextHandler {
    open spec fn log(&self) -> Seq<PatchEvent> {
        self.log@
    }

    open spec fn inv(&self) -> bool {
        self.consistent()
    }

    open spec fn accepts(&self, e: PatchEvent) -> bool {
        !((e is Repeat || e is NewBlock || e is OldBlock || e is End) && self.cur_file is None)
    }

    open spec fn refusal(&self, e: PatchEvent) -> Error {
        Error::ProtocolViolation
    }

    fn handle_add(&mut self, p: &WzPatchFilePath, data: &WzPatchDataStream) -> (r: Result<(), Error>)
        ensures
            r is Ok,
            old(self).consistent() ==> final(self).consistent(),
    {
        self.write_event(&WzPatchEvent::Add { path: WzPatchFilePath(p.0.clone()), data: data.copy() })
    }

    fn handle_remove(&mut self, p: &WzPatchFilePath) -> (r: Result<(), Error>)
        ensures
            r is Ok,
            old(self).consistent() ==> final(self).consistent(),
    {
        self.write_event(&WzPatchEvent::Remove { path: WzPatchFilePath(p.0.clone()) })
    }

    fn handle_modify(&mut self, p: &WzPatchFilePath, old_checksum: u32, new_checksum: u32) -> (r: Result<
        (),
        Error,
    >)
        ensures
            r is Ok,
            old(self).consistent() ==> final(self).consistent(),
    {
        self.write_event(&WzPatchEvent::Modify { path: WzPatchFilePath(p.0.clone()), old_checksum, new_checksum })
    }

    fn handle_mod_repeat(&mut self, byte: u8, len: u32) -> (r: Result<(), Error>)
        ensures
            r is Ok <==> old(self).cur_file is Some,
            old(self).consistent() ==> final(self).consistent(),
    {
        self.write_event(&WzPatchEvent::Repeat { byte, len })
    }

    fn handle_mod_new_block(&mut self, data: &WzPatchDataStream) -> (r: Result<(), Error>)
        ensures
            r is Ok <==> old(self).cur_file is Some,
            old(self).consistent() ==> final(self).consistent(),
    {
        self.write_event(&WzPatchEvent::NewBlock { data: data.copy() })
    }

    fn handle_mod_old_block(&mut self, offset: u32, len: u32) -> (r: Result<(), Error>)
        ensures
            r is Ok <==> old(self).cur_file is Some,
            old(self).consistent() ==> final(self).consistent(),
    {
        self.write_event(&WzPatchEvent::OldBlock { offset, len })
    }

    fn handle_mod_end(&mut self, checksum: u32) -> (r: Result<(), Error>)
        ensures
            r is Ok <==> old(self).cur_file is Some,
            r is Ok ==> final(self).cur_file is None,
            old(self).consistent() ==> final(self).consistent(),
    {
        self.write_event(&WzPatchEvent::End { checksum })
    }
}

} // verus!
