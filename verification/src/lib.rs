//! A library for reading and writing disk partition tables: the GUID
//! Partition Table (GPT) and the legacy Master Boot Record (MBR).
//!
//! The codec works on in-memory byte images of a disk; callers read the
//! relevant region of a device into a buffer, hand it to `load`, and write
//! the buffer that `write` fills back to the device.
pub mod util;
pub mod bytes;
pub mod guid;
pub mod name;
pub mod crc;
pub mod mbr;
pub mod gpt;

pub use mbr::MBR;
pub use gpt::GPTTable as GPT;
