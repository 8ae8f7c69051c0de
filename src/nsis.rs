//! The first header of NSIS installers, read but not yet unpacked.

use vstd::prelude::*;

use crate::bytes::{le_u32, read_array, read_u32_le};
use crate::error::Error;

verus! {

/// The flags of an NSIS header, with unknown bits dropped.
#[derive(Clone, Copy, Debug, PartialEq, Eq, Structural)]
pub struct NsisFlags {
    bits: u32,
}

impl NsisFlags {
    pub const UINSTALL: u32 = 1;
    pub const SILENT: u32 = 2;
    pub const NO_CRC: u32 = 4;
    pub const FORCE_CRC: u32 = 8;
    pub const BI_LONG_OFFSET: u32 = 16;
    pub const BI_EXTERNAL_FILE_SUPPORT: u32 = 32;
    pub const BI_EXTERNAL_FILE: u32 = 64;
    pub const BI_IS_STUB_INSTALLER: u32 = 128;

    pub closed spec fn spec_bits(&self) -> u32 {
        self.bits
    }

    /// The flags among `bits` that are known; the others are dropped.
    pub fn from_bits_truncate(bits: u32) -> (r: NsisFlags)
        ensures
            r.spec_bits() == bits & 0xFF,
    {
        NsisFlags { bits: bits & 0xFF }
    }

    pub fn bits(&self) -> (r: u32)
        ensures
            r == self.spec_bits(),
    {
        self.bits
    }

    /// Whether every flag of `other` is set.
    pub fn contains(&self, other: u32) -> (r: bool)
        ensures
            r == (self.spec_bits() & other == other),
    {
        self.bits & other == other
    }
}

/// The first header of an NSIS payload (packed, little-endian).
#[derive(Clone, Copy, Debug, Default)]
pub struct NsisHeader {
    pub flags: u32,
    pub sig_info: u32,
    pub magic: [u8; 12],
    pub header_len: u32,
    pub data_len: u32,
}

/// An offset and a count of one of the blocks of the NSIS header proper.
#[derive(Clone, Copy, Debug, Default)]
pub struct BlockHeader {
    pub offset: u32,
    pub num: u32,
}

/// The NSIS header proper, which follows the compressed data's start.
#[derive(Clone, Copy, Debug, Default)]
pub struct Hdr {
    pub flags: u32,
    pub block_sections: BlockHeader,
    pub block_entries: BlockHeader,
    pub block_strings: BlockHeader,
    pub block_lang: BlockHeader,
    pub block_ctl_colors: BlockHeader,
    pub block_data: BlockHeader,
    pub install_reg_root: u32,
    pub install_reg_key: u32,
    pub install_reg_value: u32,
}

/// The size of the packed first header.
pub const NSIS_HEADER_LEN: usize = 28;

impl NsisHeader {
    /// The known flags.
    pub fn flags(&self) -> (r: NsisFlags)
        ensures
            r.spec_bits() == self.flags & 0xFF,
    {
        NsisFlags::from_bits_truncate(self.flags)
    }

    /// Reads the header at `pos` of `data`.
    pub fn read(data: &[u8], pos: usize) -> (r: Result<NsisHeader, Error>)
        ensures
            pos + NSIS_HEADER_LEN > data@.len() ==> r == Err::<NsisHeader, Error>(Error::TruncatedStream),
            pos + NSIS_HEADER_LEN <= data@.len() ==> r is Ok && ({
                let h = r->Ok_0;
                &&& h.flags == le_u32(data@, pos as int)
                &&& h.sig_info == le_u32(data@, pos + 4)
                &&& h.magic@ == data@.subrange(pos + 8, pos + 20)
                &&& h.header_len == le_u32(data@, pos + 20)
                &&& h.data_len == le_u32(data@, pos + 24)
            }),
    {
        if pos > data.len() || data.len() - pos < NSIS_HEADER_LEN {
            return Err(Error::TruncatedStream);
        }
        Ok(NsisHeader {
            flags: read_u32_le(data, pos),
            sig_info: read_u32_le(data, pos + 4),
            magic: read_array::<12>(data, pos + 8),
            header_len: read_u32_le(data, pos + 20),
            data_len: read_u32_le(data, pos + 24),
        })
    }
}

/// An NSIS installer held in memory, with its first header.
#[derive(Debug)]
pub struct Nsis {
    rdr: Vec<u8>,
    hdr: NsisHeader,
    offset: u64,
}

impl Nsis {
    pub closed spec fn bytes(&self) -> Seq<u8> {
        self.rdr@
    }

    pub closed spec fn spec_offset(&self) -> u64 {
        self.offset
    }

    pub closed spec fn spec_hdr(&self) -> NsisHeader {
        self.hdr
    }

    /// Opens the installer in `rdr` whose first header is at `offset`.
    pub fn new(rdr: Vec<u8>, offset: u64) -> (r: Result<Nsis, Error>)
        ensures
            offset + NSIS_HEADER_LEN > rdr@.len() ==> r == Err::<Nsis, Error>(Error::TruncatedStream),
            offset + NSIS_HEADER_LEN <= rdr@.len() ==> r is Ok && r->Ok_0.bytes() == rdr@
                && r->Ok_0.spec_offset() == offset && r->Ok_0.spec_hdr().flags == le_u32(rdr@, offset as int)
                && r->Ok_0.spec_hdr().data_len == le_u32(rdr@, offset + 24),
    {
        if offset >= rdr.len() as u64 {
            return Err(Error::TruncatedStream);
        }
        let hdr = NsisHeader::read(rdr.as_slice(), offset as usize)?;
        Ok(Nsis { rdr, hdr, offset })
    }

    /// The first header.
    pub fn hdr(&self) -> (r: NsisHeader)
        ensures
            r == self.spec_hdr(),
    {
        self.hdr
    }
}

} // verus!
