//! The `[MS-CFB]` on-disk layout this crate reads: the header and
//! directory-entry field offsets, the special sector ids, and the caps that
//! bound every walk over untrusted input.
//!
//! The values are those that `forensicnomicon::olecf` publishes; the test suite
//! holds each one to its `forensicnomicon` counterpart.
use vstd::prelude::*;

verus! {

/// The eight signature bytes that open every compound file.
pub const OLECF_SIGNATURE: [u8; 8] = [0xD0, 0xCF, 0x11, 0xE0, 0xA1, 0xB1, 0x1A, 0xE1];

/// Size of the fixed compound-file header.
pub const HEADER_SIZE: usize = 512;

/// Header offset of the major version (`u16`).
pub const MAJOR_VERSION: usize = 26;

/// Header offset of the byte-order mark (`u16`).
pub const BYTE_ORDER: usize = 28;

/// Header offset of the sector shift (`u16`).
pub const SECTOR_SHIFT: usize = 30;

/// Header offset of the mini-sector shift (`u16`).
pub const MINI_SECTOR_SHIFT: usize = 32;

/// Header offset of the first directory sector id (`u32`).
pub const FIRST_DIR_SECTOR: usize = 48;

/// Header offset of the mini-stream cutoff (`u32`).
pub const MINI_STREAM_CUTOFF: usize = 56;

/// Header offset of the first mini-FAT sector id (`u32`).
pub const FIRST_MINIFAT_SECTOR: usize = 60;

/// Header offset of the first DIFAT sector id (`u32`).
pub const FIRST_DIFAT_SECTOR: usize = 68;

/// Header offset of the DIFAT sector count (`u32`).
pub const NUM_DIFAT_SECTORS: usize = 72;

/// Header offset of the in-header DIFAT array.
pub const DIFAT_HEADER_OFFSET: usize = 76;

/// Number of FAT-sector ids held in the header DIFAT array.
pub const DIFAT_HEADER_COUNT: usize = 109;

/// The little-endian byte-order mark every compound file must carry.
pub const BYTE_ORDER_LE: u16 = 0xFFFE;

/// Streams smaller than this many bytes live in the mini-stream.
pub const MINI_STREAM_CUTOFF_VALUE: u32 = 4096;

/// Size of one mini-sector.
pub const MINI_SECTOR_SIZE: usize = 64;

/// Sector shift of a version-3 file (512-byte sectors).
pub const SECTOR_SHIFT_V3: u16 = 9;

/// Size of one directory entry.
pub const DIR_ENTRY_SIZE: usize = 128;

/// Free-sector marker in the FAT and mini-FAT.
pub const FREESECT: u32 = 0xFFFF_FFFF;

/// End-of-chain marker.
pub const ENDOFCHAIN: u32 = 0xFFFF_FFFE;

/// Largest sector id that names a data sector; larger values are markers.
pub const MAXREGSECT: u32 = 0xFFFF_FFFA;

/// "No sibling / child" marker in a directory entry.
pub const NOSTREAM: u32 = 0xFFFF_FFFF;

/// Directory-entry offset of the UTF-16LE name field.
pub const NAME: usize = 0;

/// Directory-entry offset of the name length (`u16`); also the name field's size.
pub const NAME_LEN: usize = 64;

/// Directory-entry offset of the object type byte.
pub const OBJECT_TYPE: usize = 66;

/// Directory-entry offset of the red-black colour byte.
pub const COLOR: usize = 67;

/// Directory-entry offset of the left sibling id (`u32`).
pub const LEFT_SIBLING: usize = 68;

/// Directory-entry offset of the right sibling id (`u32`).
pub const RIGHT_SIBLING: usize = 72;

/// Directory-entry offset of the child id (`u32`).
pub const CHILD: usize = 76;

/// Directory-entry offset of the 16-byte class id.
pub const CLSID: usize = 80;

/// Directory-entry offset of the state bits (`u32`).
pub const STATE_BITS: usize = 96;

/// Directory-entry offset of the creation FILETIME (`u64`).
pub const CREATE_TIME: usize = 100;

/// Directory-entry offset of the modification FILETIME (`u64`).
pub const MODIFY_TIME: usize = 108;

/// Directory-entry offset of the starting sector id (`u32`).
pub const START_SECTOR: usize = 116;

/// Directory-entry offset of the stream size (`u64`).
pub const STREAM_SIZE: usize = 120;

/// Cap on the number of FAT / mini-FAT slots (and FAT-sector ids) collected.
pub const MAX_SECTORS: usize = 16777216;

/// Cap on the number of directory entries decoded.
pub const MAX_DIR_ENTRIES: usize = 4194304;

/// Cap on the number of steps of any sector-chain walk.
pub const MAX_CHAIN_STEPS: usize = 33554432;

/// Cap on the number of mini-stream bytes materialized.
pub const MAX_MINI_STREAM: usize = 16777216;

} // verus!
