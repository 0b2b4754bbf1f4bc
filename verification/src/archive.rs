//! What an archive is made of.

use vstd::prelude::*;

verus! {

/// How long the signature header is, which every archive starts with.
pub const SIGNATURE_HEADER_SIZE: u64 = 32;

pub const K_END: u8 = 0x00;

pub const K_HEADER: u8 = 0x01;

pub const K_MAIN_STREAMS_INFO: u8 = 0x04;

pub const K_FILES_INFO: u8 = 0x05;

pub const K_PACK_INFO: u8 = 0x06;

pub const K_UNPACK_INFO: u8 = 0x07;

pub const K_SUB_STREAMS_INFO: u8 = 0x08;

pub const K_SIZE: u8 = 0x09;

pub const K_CRC: u8 = 0x0A;

pub const K_FOLDER: u8 = 0x0B;

pub const K_CODERS_UNPACK_SIZE: u8 = 0x0C;

pub const K_NUM_UNPACK_STREAM: u8 = 0x0D;

pub const K_EMPTY_STREAM: u8 = 0x0E;

pub const K_EMPTY_FILE: u8 = 0x0F;

pub const K_ANTI: u8 = 0x10;

pub const K_NAME: u8 = 0x11;

pub const K_C_TIME: u8 = 0x12;

pub const K_A_TIME: u8 = 0x13;

pub const K_M_TIME: u8 = 0x14;

pub const K_WIN_ATTRIBUTES: u8 = 0x15;

pub const K_ENCODED_HEADER: u8 = 0x17;

/// One member of an archive.
#[derive(Debug)]
pub struct ArchiveEntry {
    /// Its name, with its directories.
    pub name: String,
    /// Whether it has data in the archive.
    pub has_stream: bool,
    /// Whether it is a directory.
    pub is_directory: bool,
    /// Whether it says that a file is to be removed.
    pub is_anti_item: bool,
    /// Whether the time of creation is known.
    pub has_creation_date: bool,
    /// Whether the time of the last change is known.
    pub has_last_modified_date: bool,
    /// Whether the time of the last access is known.
    pub has_access_date: bool,
    /// The time of creation, in tenths of microseconds since 1601.
    pub creation_date: u64,
    /// The time of the last change, in tenths of microseconds since 1601.
    pub last_modified_date: u64,
    /// The time of the last access, in tenths of microseconds since 1601.
    pub access_date: u64,
    /// Whether the attributes are known.
    pub has_windows_attributes: bool,
    /// The attributes.
    pub windows_attributes: u32,
    /// Whether the checksum is known.
    pub has_crc: bool,
    /// The checksum of the data.
    pub crc: u64,
    /// The checksum of the packed data.
    pub compressed_crc: u64,
    /// How long the data is.
    pub size: u64,
    /// How long the packed data is.
    pub compressed_size: u64,
}

impl ArchiveEntry {
    /// A member of that name, and nothing known of it but whether it is a directory. A file is
    /// expected to have data.
    pub open spec fn named(name: String, is_directory: bool) -> ArchiveEntry {
        ArchiveEntry {
            name,
            has_stream: !is_directory,
            is_directory,
            is_anti_item: false,
            has_creation_date: false,
            has_last_modified_date: false,
            has_access_date: false,
            creation_date: 0,
            last_modified_date: 0,
            access_date: 0,
            has_windows_attributes: false,
            windows_attributes: 0,
            has_crc: false,
            crc: 0,
            compressed_crc: 0,
            size: 0,
            compressed_size: 0,
        }
    }

    fn make(name: &str, is_directory: bool) -> (r: Self)
        ensures
            r.name@ == name@,
            r == Self::named(r.name, is_directory),
    {
        ArchiveEntry {
            name: name.to_string(),
            has_stream: !is_directory,
            is_directory,
            is_anti_item: false,
            has_creation_date: false,
            has_last_modified_date: false,
            has_access_date: false,
            creation_date: 0,
            last_modified_date: 0,
            access_date: 0,
            has_windows_attributes: false,
            windows_attributes: 0,
            has_crc: false,
            crc: 0,
            compressed_crc: 0,
            size: 0,
            compressed_size: 0,
        }
    }

    /// A file of that name.
    pub fn new_file(name: &str) -> (r: Self)
        ensures
            r.name@ == name@,
            r == Self::named(r.name, false),
    {
        Self::make(name, false)
    }

    /// A directory of that name.
    pub fn new_directory(name: &str) -> (r: Self)
        ensures
            r.name@ == name@,
            r == Self::named(r.name, true),
    {
        Self::make(name, true)
    }
}

impl Clone for ArchiveEntry {
    fn clone(&self) -> (r: Self)
        ensures
            r == *self,
    {
        ArchiveEntry {
            name: self.name.clone(),
            has_stream: self.has_stream,
            is_directory: self.is_directory,
            is_anti_item: self.is_anti_item,
            has_creation_date: self.has_creation_date,
            has_last_modified_date: self.has_last_modified_date,
            has_access_date: self.has_access_date,
            creation_date: self.creation_date,
            last_modified_date: self.last_modified_date,
            access_date: self.access_date,
            has_windows_attributes: self.has_windows_attributes,
            windows_attributes: self.windows_attributes,
            has_crc: self.has_crc,
            crc: self.crc,
            compressed_crc: self.compressed_crc,
            size: self.size,
            compressed_size: self.compressed_size,
        }
    }
}

} // verus!
