//! Unpacking of legacy installer executables and differential patch archives.
//!
//! The library works on in-memory byte buffers: callers read files and hand
//! their bytes over; everything that decides or computes is verified here.

pub mod bytes;
pub mod crc;
pub mod error;
pub mod is;
pub mod nfo300;
pub mod nsis;
pub mod patch;
pub mod patcher;
pub mod scan;
pub mod setup;
pub mod split;
pub mod text;
