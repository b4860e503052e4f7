//! The headers of a ZIP archive.
//!
//! Each header is described twice: by a specification function that says,
//! for any byte sequence, what the header's parser makes of it, and by the
//! parser itself, which is proved to agree with it. The specification goes
//! by the header's layout: a fixed part with its fields at known offsets,
//! then the parts whose lengths the fixed part gives. All numbers are
//! little-endian.

use vstd::prelude::*;
use vstd::slice::slice_to_vec;

use super::datetime::{parse_msdos_datetime, unix_seconds, valid_datetime};
use super::ZipError;
use crate::utils::{
    agree_on_common_prefix, agrees, agrees_plain, le16, le32, le_u16, le_u16_complete, le_u32,
    le_u64, le_u8, tag, take, u64_from_le, Needed, Outcome, ParseError,
};

verus! {

/// The signature of a local file header.
pub const LOCAL_FILE_HEADER_TAG: [u8; 4] = [0x50, 0x4b, 0x03, 0x04];

/// The signature that may precede a data descriptor.
pub const DATA_DESCRIPTOR_TAG: [u8; 4] = [0x50, 0x4b, 0x07, 0x08];

/// The signature of a central directory header.
pub const CENTRAL_DIR_HEADER_TAG: [u8; 4] = [0x50, 0x4b, 0x01, 0x02];

/// The signature of the end of the central directory.
pub const CENTRAL_DIR_END_TAG: [u8; 4] = [0x50, 0x4b, 0x05, 0x06];

/// The length of a local file header without file name and extra fields.
pub const LOCAL_FILE_HEADER_FIXED_LEN: usize = 30;

/// The length of a central directory header without its variable parts.
pub const CENTRAL_DIR_HEADER_FIXED_LEN: usize = 46;

/// The length of the end of the central directory without its comment.
pub const CENTRAL_DIR_END_FIXED_LEN: usize = 22;

/// The system on which an entry was made.
#[derive(Debug, Copy, Clone, Eq, PartialEq)]
pub enum VersionMadeBy {
    MsDos,
    Amiga,
    OpenVms,
    Unix,
    VmCms,
    AtariSt,
    Os2Hpfs,
    Macintosh,
    ZSystem,
    Cpm,
    WindowsNtfs,
    Mvs,
    Vse,
    AcornRisc,
    VFat,
    AlternateMvs,
    BeOs,
    Tandem,
    Os400,
    OsXDarwin,
}

/// How an entry's bytes are stored.
#[derive(Debug, Copy, Clone, Eq, PartialEq)]
pub enum CompressionMethod {
    Stored,
    Shrunk,
    ReducedX1,
    ReducedX2,
    ReducedX3,
    ReducedX4,
    Imploded,
    ReservedTokenized,
    Deflated,
    EnhancedDeflated,
    PkWareDCLImploded,
    Reserved2,
    Bzip2,
    Reserved3,
    Lzma,
    Reserved4,
    Reserved5,
    Reserved6,
    IbmTerse,
    IbmLz77,
    WavPack,
    PpmdVer1Rev1,
}

/// What an extra field holds.
#[derive(Debug, Copy, Clone, Eq, PartialEq)]
pub enum HeaderId {
    Zip64Extended,
    AvInfo,
    ReservedExtLangEncData,
    Os2,
    Ntfs,
    OpenVms,
    Unix,
    ReservedFileStreamForkDesc,
    PatchDesc,
    PKCS7StoreForX509Certs,
    X509CertIDAndSignatureForFile,
    X509CertIdForCentralDir,
    StrongEncHeader,
    RecordManagementControls,
    PKCS7EncRecipientCertificateList,
    IBMS390As400AttributesUncompressed,
    ReservedIBMS390As400AttributesCompressed,
    Poszip4690,
    Macintosh,
    ZipItMacintosh,
    ZipItMacintosh135Plus,
    ZipItMacintosh135Plus2,
    InfoZipMacintosh,
    AcornSparkFs,
    WindowsNtSecurityDescriptor,
    VmCms,
    Mvs,
    FwkcsMd5,
    Os2Acl,
    InfoZipOpenVms,
    XceedOrigLoc,
    AosVs,
    ExtendedTimestamp,
    XceedUnicodeXtraField,
    InfoZipUnixOriginal,
    InfoZipUnicodeComment,
    BeOsBeBox,
    AsiUnix,
    InfoZipUnixNew,
    MicrosoftOpenPackagingGrowthHint,
    SmsQDos,
    /// An identifier that is not in the list; the field is kept as it is.
    Unknown(u16),
}

/// The effort that the compressor spent, as general purpose bits 1 and 2 say.
#[derive(Debug, Copy, Clone, Eq, PartialEq)]
pub enum DeflateMode {
    Normal,
    Max,
    Fast,
    SuperFast,
}

impl VersionMadeBy {
    /// The system with the given code, if there is one.
    pub open spec fn spec_from_code(code: u8) -> Option<VersionMadeBy> {
        if code == 0 {
            Some(VersionMadeBy::MsDos)
        } else if code == 1 {
            Some(VersionMadeBy::Amiga)
        } else if code == 2 {
            Some(VersionMadeBy::OpenVms)
        } else if code == 3 {
            Some(VersionMadeBy::Unix)
        } else if code == 4 {
            Some(VersionMadeBy::VmCms)
        } else if code == 5 {
            Some(VersionMadeBy::AtariSt)
        } else if code == 6 {
            Some(VersionMadeBy::Os2Hpfs)
        } else if code == 7 {
            Some(VersionMadeBy::Macintosh)
        } else if code == 8 {
            Some(VersionMadeBy::ZSystem)
        } else if code == 9 {
            Some(VersionMadeBy::Cpm)
        } else if code == 10 {
            Some(VersionMadeBy::WindowsNtfs)
        } else if code == 11 {
            Some(VersionMadeBy::Mvs)
        } else if code == 12 {
            Some(VersionMadeBy::Vse)
        } else if code == 13 {
            Some(VersionMadeBy::AcornRisc)
        } else if code == 14 {
            Some(VersionMadeBy::VFat)
        } else if code == 15 {
            Some(VersionMadeBy::AlternateMvs)
        } else if code == 16 {
            Some(VersionMadeBy::BeOs)
        } else if code == 17 {
            Some(VersionMadeBy::Tandem)
        } else if code == 18 {
            Some(VersionMadeBy::Os400)
        } else if code == 19 {
            Some(VersionMadeBy::OsXDarwin)
        } else {
            None
        }
    }

    /// The system with the given code, if there is one.
    pub fn from_code(code: u8) -> (r: Option<VersionMadeBy>)
        ensures
            r == Self::spec_from_code(code),
    {
        match code {
            0 => Some(VersionMadeBy::MsDos),
            1 => Some(VersionMadeBy::Amiga),
            2 => Some(VersionMadeBy::OpenVms),
            3 => Some(VersionMadeBy::Unix),
            4 => Some(VersionMadeBy::VmCms),
            5 => Some(VersionMadeBy::AtariSt),
            6 => Some(VersionMadeBy::Os2Hpfs),
            7 => Some(VersionMadeBy::Macintosh),
            8 => Some(VersionMadeBy::ZSystem),
            9 => Some(VersionMadeBy::Cpm),
            10 => Some(VersionMadeBy::WindowsNtfs),
            11 => Some(VersionMadeBy::Mvs),
            12 => Some(VersionMadeBy::Vse),
            13 => Some(VersionMadeBy::AcornRisc),
            14 => Some(VersionMadeBy::VFat),
            15 => Some(VersionMadeBy::AlternateMvs),
            16 => Some(VersionMadeBy::BeOs),
            17 => Some(VersionMadeBy::Tandem),
            18 => Some(VersionMadeBy::Os400),
            19 => Some(VersionMadeBy::OsXDarwin),
            _ => None,
        }
    }
}

impl CompressionMethod {
    /// The method with the given code, if there is one.
    pub open spec fn spec_from_code(code: u16) -> Option<CompressionMethod> {
        if code == 0 {
            Some(CompressionMethod::Stored)
        } else if code == 1 {
            Some(CompressionMethod::Shrunk)
        } else if code == 2 {
            Some(CompressionMethod::ReducedX1)
        } else if code == 3 {
            Some(CompressionMethod::ReducedX2)
        } else if code == 4 {
            Some(CompressionMethod::ReducedX3)
        } else if code == 5 {
            Some(CompressionMethod::ReducedX4)
        } else if code == 6 {
            Some(CompressionMethod::Imploded)
        } else if code == 7 {
            Some(CompressionMethod::ReservedTokenized)
        } else if code == 8 {
            Some(CompressionMethod::Deflated)
        } else if code == 9 {
            Some(CompressionMethod::EnhancedDeflated)
        } else if code == 10 {
            Some(CompressionMethod::PkWareDCLImploded)
        } else if code == 11 {
            Some(CompressionMethod::Reserved2)
        } else if code == 12 {
            Some(CompressionMethod::Bzip2)
        } else if code == 13 {
            Some(CompressionMethod::Reserved3)
        } else if code == 14 {
            Some(CompressionMethod::Lzma)
        } else if code == 15 {
            Some(CompressionMethod::Reserved4)
        } else if code == 16 {
            Some(CompressionMethod::Reserved5)
        } else if code == 17 {
            Some(CompressionMethod::Reserved6)
        } else if code == 18 {
            Some(CompressionMethod::IbmTerse)
        } else if code == 19 {
            Some(CompressionMethod::IbmLz77)
        } else if code == 97 {
            Some(CompressionMethod::WavPack)
        } else if code == 98 {
            Some(CompressionMethod::PpmdVer1Rev1)
        } else {
            None
        }
    }

    /// The method with the given code, if there is one.
    pub fn from_code(code: u16) -> (r: Option<CompressionMethod>)
        ensures
            r == Self::spec_from_code(code),
    {
        match code {
            0 => Some(CompressionMethod::Stored),
            1 => Some(CompressionMethod::Shrunk),
            2 => Some(CompressionMethod::ReducedX1),
            3 => Some(CompressionMethod::ReducedX2),
            4 => Some(CompressionMethod::ReducedX3),
            5 => Some(CompressionMethod::ReducedX4),
            6 => Some(CompressionMethod::Imploded),
            7 => Some(CompressionMethod::ReservedTokenized),
            8 => Some(CompressionMethod::Deflated),
            9 => Some(CompressionMethod::EnhancedDeflated),
            10 => Some(CompressionMethod::PkWareDCLImploded),
            11 => Some(CompressionMethod::Reserved2),
            12 => Some(CompressionMethod::Bzip2),
            13 => Some(CompressionMethod::Reserved3),
            14 => Some(CompressionMethod::Lzma),
            15 => Some(CompressionMethod::Reserved4),
            16 => Some(CompressionMethod::Reserved5),
            17 => Some(CompressionMethod::Reserved6),
            18 => Some(CompressionMethod::IbmTerse),
            19 => Some(CompressionMethod::IbmLz77),
            97 => Some(CompressionMethod::WavPack),
            98 => Some(CompressionMethod::PpmdVer1Rev1),
            _ => None,
        }
    }
}

impl HeaderId {
    /// The identifier with the given code; a code that is not in the list
    /// is kept as `Unknown`.
    pub open spec fn spec_from_code(code: u16) -> HeaderId {
        if code == 0x1 {
            HeaderId::Zip64Extended
        } else if code == 0x7 {
            HeaderId::AvInfo
        } else if code == 0x8 {
            HeaderId::ReservedExtLangEncData
        } else if code == 0x9 {
            HeaderId::Os2
        } else if code == 0xa {
            HeaderId::Ntfs
        } else if code == 0xc {
            HeaderId::OpenVms
        } else if code == 0xd {
            HeaderId::Unix
        } else if code == 0xe {
            HeaderId::ReservedFileStreamForkDesc
        } else if code == 0xf {
            HeaderId::PatchDesc
        } else if code == 0x14 {
            HeaderId::PKCS7StoreForX509Certs
        } else if code == 0x15 {
            HeaderId::X509CertIDAndSignatureForFile
        } else if code == 0x16 {
            HeaderId::X509CertIdForCentralDir
        } else if code == 0x17 {
            HeaderId::StrongEncHeader
        } else if code == 0x18 {
            HeaderId::RecordManagementControls
        } else if code == 0x19 {
            HeaderId::PKCS7EncRecipientCertificateList
        } else if code == 0x65 {
            HeaderId::IBMS390As400AttributesUncompressed
        } else if code == 0x66 {
            HeaderId::ReservedIBMS390As400AttributesCompressed
        } else if code == 0x4690 {
            HeaderId::Poszip4690
        } else if code == 0x7c8 {
            HeaderId::Macintosh
        } else if code == 0x2605 {
            HeaderId::ZipItMacintosh
        } else if code == 0x2705 {
            HeaderId::ZipItMacintosh135Plus
        } else if code == 0x2805 {
            HeaderId::ZipItMacintosh135Plus2
        } else if code == 0x334d {
            HeaderId::InfoZipMacintosh
        } else if code == 0x4341 {
            HeaderId::AcornSparkFs
        } else if code == 0x4453 {
            HeaderId::WindowsNtSecurityDescriptor
        } else if code == 0x4704 {
            HeaderId::VmCms
        } else if code == 0x470f {
            HeaderId::Mvs
        } else if code == 0x4b46 {
            HeaderId::FwkcsMd5
        } else if code == 0x4c41 {
            HeaderId::Os2Acl
        } else if code == 0x4d49 {
            HeaderId::InfoZipOpenVms
        } else if code == 0x4f4c {
            HeaderId::XceedOrigLoc
        } else if code == 0x5356 {
            HeaderId::AosVs
        } else if code == 0x5455 {
            HeaderId::ExtendedTimestamp
        } else if code == 0x554e {
            HeaderId::XceedUnicodeXtraField
        } else if code == 0x5855 {
            HeaderId::InfoZipUnixOriginal
        } else if code == 0x6375 {
            HeaderId::InfoZipUnicodeComment
        } else if code == 0x6542 {
            HeaderId::BeOsBeBox
        } else if code == 0x756e {
            HeaderId::AsiUnix
        } else if code == 0x7855 {
            HeaderId::InfoZipUnixNew
        } else if code == 0xa220 {
            HeaderId::MicrosoftOpenPackagingGrowthHint
        } else if code == 0xfd4a {
            HeaderId::SmsQDos
        } else {
            HeaderId::Unknown(code)
        }
    }

    /// The identifier with the given code; a code that is not in the list
    /// is kept as `Unknown`.
    pub fn from_code(code: u16) -> (r: HeaderId)
        ensures
            r == Self::spec_from_code(code),
    {
        match code {
            0x1 => HeaderId::Zip64Extended,
            0x7 => HeaderId::AvInfo,
            0x8 => HeaderId::ReservedExtLangEncData,
            0x9 => HeaderId::Os2,
            0xa => HeaderId::Ntfs,
            0xc => HeaderId::OpenVms,
            0xd => HeaderId::Unix,
            0xe => HeaderId::ReservedFileStreamForkDesc,
            0xf => HeaderId::PatchDesc,
            0x14 => HeaderId::PKCS7StoreForX509Certs,
            0x15 => HeaderId::X509CertIDAndSignatureForFile,
            0x16 => HeaderId::X509CertIdForCentralDir,
            0x17 => HeaderId::StrongEncHeader,
            0x18 => HeaderId::RecordManagementControls,
            0x19 => HeaderId::PKCS7EncRecipientCertificateList,
            0x65 => HeaderId::IBMS390As400AttributesUncompressed,
            0x66 => HeaderId::ReservedIBMS390As400AttributesCompressed,
            0x4690 => HeaderId::Poszip4690,
            0x7c8 => HeaderId::Macintosh,
            0x2605 => HeaderId::ZipItMacintosh,
            0x2705 => HeaderId::ZipItMacintosh135Plus,
            0x2805 => HeaderId::ZipItMacintosh135Plus2,
            0x334d => HeaderId::InfoZipMacintosh,
            0x4341 => HeaderId::AcornSparkFs,
            0x4453 => HeaderId::WindowsNtSecurityDescriptor,
            0x4704 => HeaderId::VmCms,
            0x470f => HeaderId::Mvs,
            0x4b46 => HeaderId::FwkcsMd5,
            0x4c41 => HeaderId::Os2Acl,
            0x4d49 => HeaderId::InfoZipOpenVms,
            0x4f4c => HeaderId::XceedOrigLoc,
            0x5356 => HeaderId::AosVs,
            0x5455 => HeaderId::ExtendedTimestamp,
            0x554e => HeaderId::XceedUnicodeXtraField,
            0x5855 => HeaderId::InfoZipUnixOriginal,
            0x6375 => HeaderId::InfoZipUnicodeComment,
            0x6542 => HeaderId::BeOsBeBox,
            0x756e => HeaderId::AsiUnix,
            0x7855 => HeaderId::InfoZipUnixNew,
            0xa220 => HeaderId::MicrosoftOpenPackagingGrowthHint,
            0xfd4a => HeaderId::SmsQDos,
            _ => HeaderId::Unknown(code),
        }
    }
}

impl DeflateMode {
    /// The mode that two bits name.
    pub open spec fn spec_from_bits(bits: int) -> DeflateMode {
        if bits == 0 {
            DeflateMode::Normal
        } else if bits == 1 {
            DeflateMode::Max
        } else if bits == 2 {
            DeflateMode::Fast
        } else {
            DeflateMode::SuperFast
        }
    }

    /// The mode that two bits name.
    pub fn from_bits(bits: u8) -> (r: DeflateMode)
        requires
            bits < 4,
        ensures
            r == Self::spec_from_bits(bits as int),
    {
        match bits {
            0 => DeflateMode::Normal,
            1 => DeflateMode::Max,
            2 => DeflateMode::Fast,
            _ => DeflateMode::SuperFast,
        }
    }
}

/// The header that precedes an entry's bytes.
#[derive(Debug, Clone, Eq, PartialEq)]
pub struct LocalFileHeader {
    pub version_needed: u16,
    pub encrypted: bool,
    pub deflate_mode: DeflateMode,
    /// The sizes and the checksum follow the entry's bytes, in a data
    /// descriptor.
    pub deferred_sizes: bool,
    pub compression_method: CompressionMethod,
    /// Seconds since 1970-01-01T00:00:00.
    pub last_mod: u64,
    pub crc_32: u32,
    pub compressed_size: u32,
    pub uncompressed_size: u32,
    pub filename: Vec<u8>,
    /// One of the two sizes is 2^32 - 1: the real sizes are 64 bits wide.
    pub is_zip64: bool,
    pub extra_fields: Vec<(HeaderId, Vec<u8>)>,
}

/// A local file header as a mathematical value.
pub struct LocalFileHeaderView {
    pub version_needed: u16,
    pub encrypted: bool,
    pub deflate_mode: DeflateMode,
    pub deferred_sizes: bool,
    pub compression_method: CompressionMethod,
    pub last_mod: u64,
    pub crc_32: u32,
    pub compressed_size: u32,
    pub uncompressed_size: u32,
    pub filename: Seq<u8>,
    pub is_zip64: bool,
    pub extra_fields: Seq<(HeaderId, Seq<u8>)>,
}

/// Extra fields as mathematical values.
pub open spec fn extra_fields_view(fields: Seq<(HeaderId, Vec<u8>)>) -> Seq<(HeaderId, Seq<u8>)> {
    Seq::new(fields.len(), |i: int| (fields[i].0, fields[i].1@))
}

impl View for LocalFileHeader {
    type V = LocalFileHeaderView;

    open spec fn view(&self) -> LocalFileHeaderView {
        LocalFileHeaderView {
            version_needed: self.version_needed,
            encrypted: self.encrypted,
            deflate_mode: self.deflate_mode,
            deferred_sizes: self.deferred_sizes,
            compression_method: self.compression_method,
            last_mod: self.last_mod,
            crc_32: self.crc_32,
            compressed_size: self.compressed_size,
            uncompressed_size: self.uncompressed_size,
            filename: self.filename@,
            is_zip64: self.is_zip64,
            extra_fields: extra_fields_view(self.extra_fields@),
        }
    }
}

/// What follows an entry's bytes where the local file header could not give
/// the sizes.
#[derive(Debug, Clone, Copy, Eq, PartialEq)]
pub struct DataDescriptor {
    /// The descriptor started with its signature.
    pub tag: bool,
    pub crc_32: u32,
    pub uncompressed_size: u64,
    pub compressed_size: u64,
}

/// An entry of the central directory.
#[derive(Debug, Eq, PartialEq)]
pub struct CentralDirHeader {
    pub version_made_by: (u8, VersionMadeBy),
    pub version_needed: u16,
    pub encrypted: bool,
    pub deflate_mode: DeflateMode,
    pub deferred_sizes: bool,
    pub compression_method: CompressionMethod,
    pub last_mod_time: u16,
    pub last_mod_date: u16,
    pub crc_32: u32,
    pub compressed_size: u32,
    pub uncompressed_size: u32,
    pub disk_no_start: u16,
    pub int_file_attrib: u16,
    pub ext_file_attrib: u32,
    pub rel_offset_loc_header: u32,
    pub filename: Vec<u8>,
    pub extra_fields: Vec<(HeaderId, Vec<u8>)>,
    pub comment: Vec<u8>,
}

/// An entry of the central directory as a mathematical value.
pub struct CentralDirHeaderView {
    pub version_made_by: (u8, VersionMadeBy),
    pub version_needed: u16,
    pub encrypted: bool,
    pub deflate_mode: DeflateMode,
    pub deferred_sizes: bool,
    pub compression_method: CompressionMethod,
    pub last_mod_time: u16,
    pub last_mod_date: u16,
    pub crc_32: u32,
    pub compressed_size: u32,
    pub uncompressed_size: u32,
    pub disk_no_start: u16,
    pub int_file_attrib: u16,
    pub ext_file_attrib: u32,
    pub rel_offset_loc_header: u32,
    pub filename: Seq<u8>,
    pub extra_fields: Seq<(HeaderId, Seq<u8>)>,
    pub comment: Seq<u8>,
}

impl View for CentralDirHeader {
    type V = CentralDirHeaderView;

    open spec fn view(&self) -> CentralDirHeaderView {
        CentralDirHeaderView {
            version_made_by: self.version_made_by,
            version_needed: self.version_needed,
            encrypted: self.encrypted,
            deflate_mode: self.deflate_mode,
            deferred_sizes: self.deferred_sizes,
            compression_method: self.compression_method,
            last_mod_time: self.last_mod_time,
            last_mod_date: self.last_mod_date,
            crc_32: self.crc_32,
            compressed_size: self.compressed_size,
            uncompressed_size: self.uncompressed_size,
            disk_no_start: self.disk_no_start,
            int_file_attrib: self.int_file_attrib,
            ext_file_attrib: self.ext_file_attrib,
            rel_offset_loc_header: self.rel_offset_loc_header,
            filename: self.filename@,
            extra_fields: extra_fields_view(self.extra_fields@),
            comment: self.comment@,
        }
    }
}

/// The record that ends the central directory.
#[derive(Debug, Clone, Eq, PartialEq)]
pub struct CentralDirEnd {
    pub this_disk_num: u16,
    pub central_dir_start_disk_num: u16,
    pub central_dir_num_entries_this_disk: u16,
    pub central_dir_num_entries_total: u16,
    pub central_dir_size: u32,
    pub central_dir_start_offset: u32,
    pub comment: Vec<u8>,
}

/// The end of the central directory as a mathematical value.
pub struct CentralDirEndView {
    pub this_disk_num: u16,
    pub central_dir_start_disk_num: u16,
    pub central_dir_num_entries_this_disk: u16,
    pub central_dir_num_entries_total: u16,
    pub central_dir_size: u32,
    pub central_dir_start_offset: u32,
    pub comment: Seq<u8>,
}

impl View for CentralDirEnd {
    type V = CentralDirEndView;

    open spec fn view(&self) -> CentralDirEndView {
        CentralDirEndView {
            this_disk_num: self.this_disk_num,
            central_dir_start_disk_num: self.central_dir_start_disk_num,
            central_dir_num_entries_this_disk: self.central_dir_num_entries_this_disk,
            central_dir_num_entries_total: self.central_dir_num_entries_total,
            central_dir_size: self.central_dir_size,
            central_dir_start_offset: self.central_dir_start_offset,
            comment: self.comment@,
        }
    }
}

/// The general purpose flags that the parsers read, out of their low byte:
/// bit 0 says that the entry is encrypted, bits 1 and 2 give the deflate
/// mode, bit 3 says that the sizes are deferred.
pub open spec fn flags_of(low: u8) -> (bool, DeflateMode, bool) {
    (low % 2 == 1, DeflateMode::spec_from_bits(((low / 2) % 4) as int), (low / 8) % 2 == 1)
}

/// The two bytes of general purpose flags.
pub open spec fn spec_bitflags(s: Seq<u8>) -> Outcome<(bool, DeflateMode, bool), ZipError> {
    if s.len() < 2 {
        Err(ParseError::Incomplete(Needed::Size(1)))
    } else {
        Ok((s.skip(2), flags_of(s[0])))
    }
}

/// The two bytes that name a compression method.
pub open spec fn spec_compression_method(s: Seq<u8>) -> Outcome<CompressionMethod, ZipError> {
    if s.len() < 2 {
        Err(ParseError::Incomplete(Needed::Size(2)))
    } else {
        match CompressionMethod::spec_from_code(le16(s, 0)) {
            Some(method) => Ok((s.skip(2), method)),
            None => Err(ParseError::Failure(ZipError::InvalidCompressionMethod)),
        }
    }
}

/// The two bytes that say by which version of the format, and on which
/// system, an entry was made.
pub open spec fn spec_version_made_by(s: Seq<u8>) -> Outcome<(u8, VersionMadeBy), ZipError> {
    if s.len() < 2 {
        Err(ParseError::Incomplete(Needed::Size(1)))
    } else {
        match VersionMadeBy::spec_from_code(s[1]) {
            Some(system) => Ok((s.skip(2), (s[0], system))),
            None => Err(ParseError::Failure(ZipError::InvalidVersionMadeBy)),
        }
    }
}

/// The two bytes that identify an extra field. Here a short input is an
/// error, not a request for more: the extra fields are read out of a block
/// of known length.
pub open spec fn spec_header_id(s: Seq<u8>) -> Outcome<HeaderId, ZipError> {
    if s.len() < 2 {
        Err(ParseError::Error(ZipError::InvalidHeaderId))
    } else {
        Ok((s.skip(2), HeaderId::spec_from_code(le16(s, 0))))
    }
}

/// One extra field: identifier, length of the payload, payload.
pub open spec fn spec_one_extra_field(s: Seq<u8>) -> Outcome<(HeaderId, Seq<u8>), ZipError> {
    if s.len() < 4 {
        Err(ParseError::Error(ZipError::InvalidHeaderId))
    } else if s.len() < 4 + le16(s, 2) {
        Err(ParseError::Incomplete(Needed::Size(le16(s, 2) as usize)))
    } else {
        Ok((s.skip(4 + le16(s, 2)), (HeaderId::spec_from_code(le16(s, 0)), s.subrange(4, 4 + le16(s, 2)))))
    }
}

/// The extra fields that a block holds, one after the other. Bytes at the
/// end that are too few for an identifier and a length are passed over. Where
/// a payload is longer than what is left of the block there is no result.
pub open spec fn spec_extra_fields(block: Seq<u8>) -> Option<Seq<(HeaderId, Seq<u8>)>>
    decreases block.len(),
{
    match spec_one_extra_field(block) {
        Ok((rest, field)) => if rest.len() < block.len() {
            match spec_extra_fields(rest) {
                Some(more) => Some(seq![field] + more),
                None => None,
            }
        } else {
            None
        },
        Err(ParseError::Error(_)) => Some(Seq::empty()),
        Err(_) => None,
    }
}

/// A block of `len` bytes and the extra fields in it.
pub open spec fn spec_extra_block(s: Seq<u8>, len: u16) -> Outcome<Seq<(HeaderId, Seq<u8>)>, ZipError> {
    if s.len() < len {
        Err(ParseError::Incomplete(Needed::Size(len as usize)))
    } else {
        match spec_extra_fields(s.take(len as int)) {
            Some(fields) => Ok((s.skip(len as int), fields)),
            None => Err(ParseError::Error(ZipError::InvalidHeaderId)),
        }
    }
}

/// A local file header: the signature, 26 bytes of fixed fields, the file
/// name and the extra fields.
///
/// | offset | bytes | field |
/// |---|---|---|
/// | 0 | 4 | signature `50 4b 03 04` |
/// | 4 | 2 | version needed |
/// | 6 | 2 | general purpose flags |
/// | 8 | 2 | compression method |
/// | 10 | 2 | time of last modification |
/// | 12 | 2 | date of last modification |
/// | 14 | 4 | CRC-32 |
/// | 18 | 4 | compressed size |
/// | 22 | 4 | uncompressed size |
/// | 26 | 2 | length of the file name |
/// | 28 | 2 | length of the extra fields |
///
/// A wrong signature is the error `NotLocalFileHeader`, reported as soon as a
/// byte differs. An unknown compression method and a date or time out of
/// range are failures, reported as soon as their bytes are there. Extra
/// fields that overrun their block are the error `InvalidLocalFileHeader`.
/// Anything else that stops the parser is a lack of input.
#[verifier::opaque]
pub open spec fn spec_local_file_header(s: Seq<u8>) -> Outcome<LocalFileHeaderView, ZipError> {
    if !agree_on_common_prefix(s, LOCAL_FILE_HEADER_TAG@) {
        Err(ParseError::Error(ZipError::NotLocalFileHeader))
    } else if s.len() < 4 {
        Err(ParseError::Incomplete(Needed::Size(4)))
    } else if s.len() < 6 {
        Err(ParseError::Incomplete(Needed::Size(2)))
    } else if s.len() < 8 {
        Err(ParseError::Incomplete(Needed::Size(1)))
    } else if s.len() < 10 {
        Err(ParseError::Incomplete(Needed::Size(2)))
    } else if CompressionMethod::spec_from_code(le16(s, 8)) is None {
        Err(ParseError::Failure(ZipError::InvalidCompressionMethod))
    } else if s.len() < 14 {
        Err(ParseError::Incomplete(Needed::Size(2)))
    } else if !valid_datetime(le16(s, 10), le16(s, 12)) {
        Err(ParseError::Failure(ZipError::InvalidDateOrTime))
    } else if s.len() < 26 {
        Err(ParseError::Incomplete(Needed::Size(4)))
    } else if s.len() < 30 {
        Err(ParseError::Incomplete(Needed::Size(2)))
    } else {
        let fname_len = le16(s, 26);
        let extra_len = le16(s, 28);
        if s.len() < 30 + fname_len {
            Err(ParseError::Incomplete(Needed::Size(fname_len as usize)))
        } else if s.len() < 30 + fname_len + extra_len {
            Err(ParseError::Incomplete(Needed::Size(extra_len as usize)))
        } else {
            match spec_extra_fields(s.subrange(30 + fname_len, 30 + fname_len + extra_len)) {
                None => Err(ParseError::Error(ZipError::InvalidLocalFileHeader)),
                Some(extra_fields) => Ok(
                    (
                        s.skip(30 + fname_len + extra_len),
                        LocalFileHeaderView {
                            version_needed: le16(s, 4),
                            encrypted: flags_of(s[6]).0,
                            deflate_mode: flags_of(s[6]).1,
                            deferred_sizes: flags_of(s[6]).2,
                            compression_method: CompressionMethod::spec_from_code(le16(s, 8))->Some_0,
                            last_mod: unix_seconds(le16(s, 10), le16(s, 12)) as u64,
                            crc_32: le32(s, 14),
                            compressed_size: le32(s, 18),
                            uncompressed_size: le32(s, 22),
                            filename: s.subrange(30, 30 + fname_len),
                            is_zip64: le32(s, 18) == 0xffff_ffff || le32(s, 22) == 0xffff_ffff,
                            extra_fields,
                        },
                    ),
                ),
            }
        }
    }
}

/// A data descriptor: the signature `50 4b 07 08` if it is there, the
/// CRC-32, and the two sizes, each 8 bytes wide where `wide` and 4 bytes
/// wide where not. Any bytes are a data descriptor if they are enough:
/// whether they mean anything is for the reader to find out.
#[verifier::opaque]
pub open spec fn spec_data_descriptor(s: Seq<u8>, wide: bool) -> Outcome<DataDescriptor, ZipError> {
    let tag = agree_on_common_prefix(s, DATA_DESCRIPTOR_TAG@);
    let at: int = if tag {
        4
    } else {
        0
    };
    if tag && s.len() < 4 {
        Err(ParseError::Incomplete(Needed::Size(4)))
    } else if s.len() < at + 4 {
        Err(ParseError::Incomplete(Needed::Size(4)))
    } else if wide {
        if s.len() < at + 20 {
            Err(ParseError::Incomplete(Needed::Size(8)))
        } else {
            Ok(
                (
                    s.skip(at + 20),
                    DataDescriptor {
                        tag,
                        crc_32: le32(s, at),
                        compressed_size: u64_from_le(s.skip(at + 4)),
                        uncompressed_size: u64_from_le(s.skip(at + 12)),
                    },
                ),
            )
        }
    } else {
        if s.len() < at + 12 {
            Err(ParseError::Incomplete(Needed::Size(4)))
        } else {
            Ok(
                (
                    s.skip(at + 12),
                    DataDescriptor {
                        tag,
                        crc_32: le32(s, at),
                        compressed_size: le32(s, at + 4) as u64,
                        uncompressed_size: le32(s, at + 8) as u64,
                    },
                ),
            )
        }
    }
}

/// A central directory header: the signature, 42 bytes of fixed fields, the
/// file name, the extra fields and the comment.
///
/// | offset | bytes | field |
/// |---|---|---|
/// | 0 | 4 | signature `50 4b 01 02` |
/// | 4 | 2 | version made by |
/// | 6 | 2 | version needed |
/// | 8 | 2 | general purpose flags |
/// | 10 | 2 | compression method |
/// | 12 | 2 | time of last modification |
/// | 14 | 2 | date of last modification |
/// | 16 | 4 | CRC-32 |
/// | 20 | 4 | compressed size |
/// | 24 | 4 | uncompressed size |
/// | 28 | 2 | length of the file name |
/// | 30 | 2 | length of the extra fields |
/// | 32 | 2 | length of the comment |
/// | 34 | 2 | number of the disk on which the entry starts |
/// | 36 | 2 | internal attributes |
/// | 38 | 4 | external attributes |
/// | 42 | 4 | offset of the local file header |
///
/// A wrong signature is the error `NotCentralDirHeader`. An unknown system
/// and an unknown compression method are failures. Extra fields that overrun
/// their block are the error `InvalidCentralDirHeader`. Date and time are
/// not checked.
#[verifier::opaque]
pub open spec fn spec_central_dir_header(s: Seq<u8>) -> Outcome<CentralDirHeaderView, ZipError> {
    if !agree_on_common_prefix(s, CENTRAL_DIR_HEADER_TAG@) {
        Err(ParseError::Error(ZipError::NotCentralDirHeader))
    } else if s.len() < 4 {
        Err(ParseError::Incomplete(Needed::Size(4)))
    } else if s.len() < 6 {
        Err(ParseError::Incomplete(Needed::Size(1)))
    } else if VersionMadeBy::spec_from_code(s[5]) is None {
        Err(ParseError::Failure(ZipError::InvalidVersionMadeBy))
    } else if s.len() < 8 {
        Err(ParseError::Incomplete(Needed::Size(2)))
    } else if s.len() < 10 {
        Err(ParseError::Incomplete(Needed::Size(1)))
    } else if s.len() < 12 {
        Err(ParseError::Incomplete(Needed::Size(2)))
    } else if CompressionMethod::spec_from_code(le16(s, 10)) is None {
        Err(ParseError::Failure(ZipError::InvalidCompressionMethod))
    } else if s.len() < 16 {
        Err(ParseError::Incomplete(Needed::Size(2)))
    } else if s.len() < 28 {
        Err(ParseError::Incomplete(Needed::Size(4)))
    } else if s.len() < 38 {
        Err(ParseError::Incomplete(Needed::Size(2)))
    } else if s.len() < 46 {
        Err(ParseError::Incomplete(Needed::Size(4)))
    } else {
        let fname_len = le16(s, 28);
        let extra_len = le16(s, 30);
        let comment_len = le16(s, 32);
        let extra_at = 46 + fname_len;
        let comment_at = extra_at + extra_len;
        if s.len() < extra_at {
            Err(ParseError::Incomplete(Needed::Size(fname_len as usize)))
        } else if s.len() < comment_at {
            Err(ParseError::Incomplete(Needed::Size(extra_len as usize)))
        } else {
            match spec_extra_fields(s.subrange(extra_at, comment_at)) {
                None => Err(ParseError::Error(ZipError::InvalidCentralDirHeader)),
                Some(extra_fields) => if s.len() < comment_at + comment_len {
                    Err(ParseError::Incomplete(Needed::Size(comment_len as usize)))
                } else {
                    Ok(
                        (
                            s.skip(comment_at + comment_len),
                            CentralDirHeaderView {
                                version_made_by: (s[4], VersionMadeBy::spec_from_code(s[5])->Some_0),
                                version_needed: le16(s, 6),
                                encrypted: flags_of(s[8]).0,
                                deflate_mode: flags_of(s[8]).1,
                                deferred_sizes: flags_of(s[8]).2,
                                compression_method: CompressionMethod::spec_from_code(
                                    le16(s, 10),
                                )->Some_0,
                                last_mod_time: le16(s, 12),
                                last_mod_date: le16(s, 14),
                                crc_32: le32(s, 16),
                                compressed_size: le32(s, 20),
                                uncompressed_size: le32(s, 24),
                                disk_no_start: le16(s, 34),
                                int_file_attrib: le16(s, 36),
                                ext_file_attrib: le32(s, 38),
                                rel_offset_loc_header: le32(s, 42),
                                filename: s.subrange(46, extra_at),
                                extra_fields,
                                comment: s.subrange(comment_at, comment_at + comment_len),
                            },
                        ),
                    )
                },
            }
        }
    }
}

/// The end of the central directory: the signature, 18 bytes of fixed
/// fields and the comment.
///
/// | offset | bytes | field |
/// |---|---|---|
/// | 0 | 4 | signature `50 4b 05 06` |
/// | 4 | 2 | number of this disk |
/// | 6 | 2 | number of the disk on which the central directory starts |
/// | 8 | 2 | number of entries on this disk |
/// | 10 | 2 | number of entries in all |
/// | 12 | 4 | size of the central directory |
/// | 16 | 4 | offset of the central directory |
/// | 20 | 2 | length of the comment |
///
/// A wrong signature is the error `InvalidCentralDirHeader`.
#[verifier::opaque]
pub open spec fn spec_central_dir_end(s: Seq<u8>) -> Outcome<CentralDirEndView, ZipError> {
    if !agree_on_common_prefix(s, CENTRAL_DIR_END_TAG@) {
        Err(ParseError::Error(ZipError::InvalidCentralDirHeader))
    } else if s.len() < 4 {
        Err(ParseError::Incomplete(Needed::Size(4)))
    } else if s.len() < 12 {
        Err(ParseError::Incomplete(Needed::Size(2)))
    } else if s.len() < 20 {
        Err(ParseError::Incomplete(Needed::Size(4)))
    } else if s.len() < 22 {
        Err(ParseError::Incomplete(Needed::Size(2)))
    } else if s.len() < 22 + le16(s, 20) {
        Err(ParseError::Incomplete(Needed::Size(le16(s, 20) as usize)))
    } else {
        Ok(
            (
                s.skip(22 + le16(s, 20)),
                CentralDirEndView {
                    this_disk_num: le16(s, 4),
                    central_dir_start_disk_num: le16(s, 6),
                    central_dir_num_entries_this_disk: le16(s, 8),
                    central_dir_num_entries_total: le16(s, 10),
                    central_dir_size: le32(s, 12),
                    central_dir_start_offset: le32(s, 16),
                    comment: s.subrange(22, 22 + le16(s, 20)),
                },
            ),
        )
    }
}

/// Reads the general purpose flags and returns (encrypted, deflate mode,
/// deferred sizes).
pub fn parse_bitflags(input: &[u8]) -> (r: Result<(&[u8], (bool, DeflateMode, bool)), ParseError<ZipError>>)
    ensures
        agrees_plain(r, spec_bitflags(input@)),
{
    if input.len() < 2 {
        return Err(ParseError::Incomplete(Needed::Size(1)));
    }
    let low: u8 = input[0];
    let encrypted: bool = low % 2 == 1;
    let deflate_mode = DeflateMode::from_bits((low / 2) % 4);
    let deferred_sizes: bool = (low / 8) % 2 == 1;
    Ok((&input[2..input.len()], (encrypted, deflate_mode, deferred_sizes)))
}

/// Reads the version and the system by which an entry was made.
pub fn parse_version_made_by(input: &[u8]) -> (r: Result<(&[u8], (u8, VersionMadeBy)), ParseError<ZipError>>)
    ensures
        agrees_plain(r, spec_version_made_by(input@)),
{
    let (i, zip_ver) = match le_u8::<ZipError>(input) {
        Ok(x) => x,
        Err(e) => {
            return Err(e);
        },
    };
    let (i, code) = match le_u8::<ZipError>(i) {
        Ok(x) => x,
        Err(e) => {
            return Err(e);
        },
    };
    proof {
        assert(i@ =~= input@.skip(2));
    }
    match VersionMadeBy::from_code(code) {
        Some(system) => Ok((i, (zip_ver, system))),
        None => Err(ParseError::Failure(ZipError::InvalidVersionMadeBy)),
    }
}

/// Reads a compression method.
pub fn parse_compression_method(input: &[u8]) -> (r: Result<(&[u8], CompressionMethod), ParseError<ZipError>>)
    ensures
        agrees_plain(r, spec_compression_method(input@)),
{
    let (unparsed, code) = match le_u16::<ZipError>(input) {
        Ok(x) => x,
        Err(e) => {
            return Err(e);
        },
    };
    match CompressionMethod::from_code(code) {
        Some(method) => Ok((unparsed, method)),
        None => Err(ParseError::Failure(ZipError::InvalidCompressionMethod)),
    }
}

/// Reads the identifier of an extra field.
pub fn parse_header_id(input: &[u8]) -> (r: Result<(&[u8], HeaderId), ParseError<ZipError>>)
    ensures
        agrees_plain(r, spec_header_id(input@)),
{
    let (unparsed, code) = match le_u16_complete(input, ZipError::InvalidHeaderId) {
        Ok(x) => x,
        Err(e) => {
            return Err(e);
        },
    };
    Ok((unparsed, HeaderId::from_code(code)))
}

/// Reads one extra field.
pub fn parse_one_extra_field(i: &[u8]) -> (r: Result<(&[u8], (HeaderId, Vec<u8>)), ParseError<ZipError>>)
    ensures
        match r {
            Ok((rest, field)) => spec_one_extra_field(i@) == Ok::<
                (Seq<u8>, (HeaderId, Seq<u8>)),
                ParseError<ZipError>,
            >((rest@, (field.0, field.1@))),
            Err(e) => spec_one_extra_field(i@) == Err::<
                (Seq<u8>, (HeaderId, Seq<u8>)),
                ParseError<ZipError>,
            >(e),
        },
{
    let (i1, id) = match parse_header_id(i) {
        Ok(x) => x,
        Err(e) => {
            return Err(e);
        },
    };
    let (i2, len) = match le_u16_complete(i1, ZipError::InvalidHeaderId) {
        Ok(x) => x,
        Err(e) => {
            return Err(e);
        },
    };
    let (i3, contents) = match take::<ZipError>(i2, len as usize) {
        Ok(x) => x,
        Err(e) => {
            return Err(e);
        },
    };
    proof {
        assert(i3@ =~= i@.skip(4 + len));
        assert(contents@ =~= i@.subrange(4, 4 + len));
    }
    Ok((i3, (id, slice_to_vec(contents))))
}

/// Reads a block of `len` bytes and the extra fields in it.
pub fn parse_extra_fields(input: &[u8], len: u16) -> (r: Result<
    (&[u8], Vec<(HeaderId, Vec<u8>)>),
    ParseError<ZipError>,
>)
    ensures
        match r {
            Ok((rest, fields)) => spec_extra_block(input@, len) == Ok::<
                (Seq<u8>, Seq<(HeaderId, Seq<u8>)>),
                ParseError<ZipError>,
            >((rest@, extra_fields_view(fields@))),
            Err(e) => spec_extra_block(input@, len) == Err::<
                (Seq<u8>, Seq<(HeaderId, Seq<u8>)>),
                ParseError<ZipError>,
            >(e),
        },
{
    let (rest, block) = match take::<ZipError>(input, len as usize) {
        Ok(x) => x,
        Err(e) => {
            return Err(e);
        },
    };
    let mut fields: Vec<(HeaderId, Vec<u8>)> = Vec::new();
    let mut i: &[u8] = block;
    loop
        invariant
            input@.len() >= len,
            rest@ == input@.skip(len as int),
            block@ == input@.take(len as int),
            i@.len() <= block@.len(),
            spec_extra_fields(block@) == match spec_extra_fields(i@) {
                Some(more) => Some(extra_fields_view(fields@) + more),
                None => None,
            },
        decreases i@.len(),
    {
        match parse_one_extra_field(i) {
            Ok((i1, field)) => {
                proof {
                    let more = spec_extra_fields(i1@);
                    if more is Some {
                        assert(extra_fields_view(fields@.push(field)) + more->Some_0 =~= extra_fields_view(
                            fields@,
                        ) + (seq![(field.0, field.1@)] + more->Some_0));
                    }
                }
                fields.push(field);
                i = i1;
            },
            Err(ParseError::Error(_)) => {
                proof {
                    assert(extra_fields_view(fields@) + Seq::<(HeaderId, Seq<u8>)>::empty()
                        =~= extra_fields_view(fields@));
                }
                return Ok((rest, fields));
            },
            Err(_) => {
                return Err(ParseError::Error(ZipError::InvalidHeaderId));
            },
        }
    }
}

/// Turns the error of an extra field block into that of the header that
/// holds the block; a lack of input stays what it is.
fn extra_fields_error(e: ParseError<ZipError>, err: ZipError) -> (r: ParseError<ZipError>)
    ensures
        r == match e {
            ParseError::Incomplete(n) => ParseError::Incomplete(n),
            ParseError::Error(_) => ParseError::Error(err),
            ParseError::Failure(_) => ParseError::Failure(err),
        },
{
    match e {
        ParseError::Incomplete(n) => ParseError::Incomplete(n),
        ParseError::Error(_) => ParseError::Error(err),
        ParseError::Failure(_) => ParseError::Failure(err),
    }
}

impl LocalFileHeader {
    /// Reads a local file header.
    pub fn parse(i: &[u8]) -> (r: Result<(&[u8], LocalFileHeader), ParseError<ZipError>>)
        ensures
            agrees(r, spec_local_file_header(i@)),
    {
        reveal(spec_local_file_header);
        let ghost s = i@;
        let signature = LOCAL_FILE_HEADER_TAG;
        let (i, _) = match tag(i, signature.as_slice(), ZipError::NotLocalFileHeader) {
            Ok(x) => x,
            Err(e) => {
                return Err(e);
            },
        };
        let (i, version_needed) = match le_u16::<ZipError>(i) {
            Ok(x) => x,
            Err(e) => {
                return Err(e);
            },
        };
        let (i, bit_flags) = match parse_bitflags(i) {
            Ok(x) => x,
            Err(e) => {
                return Err(e);
            },
        };
        let (i, compression_method) = match parse_compression_method(i) {
            Ok(x) => x,
            Err(e) => {
                return Err(e);
            },
        };
        proof {
            assert(i@ =~= s.skip(10));
        }
        let (i, last_mod) = match parse_msdos_datetime(i) {
            Ok(x) => x,
            Err(e) => {
                return Err(e);
            },
        };
        proof {
            assert(i@ =~= s.skip(14));
        }
        let (i, crc_32) = match le_u32::<ZipError>(i) {
            Ok(x) => x,
            Err(e) => {
                return Err(e);
            },
        };
        let (i, compressed_size) = match le_u32::<ZipError>(i) {
            Ok(x) => x,
            Err(e) => {
                return Err(e);
            },
        };
        let (i, uncompressed_size) = match le_u32::<ZipError>(i) {
            Ok(x) => x,
            Err(e) => {
                return Err(e);
            },
        };
        proof {
            assert(i@ =~= s.skip(26));
        }
        let (i, fname_len) = match le_u16::<ZipError>(i) {
            Ok(x) => x,
            Err(e) => {
                return Err(e);
            },
        };
        let (i, extra_field_len) = match le_u16::<ZipError>(i) {
            Ok(x) => x,
            Err(e) => {
                return Err(e);
            },
        };
        proof {
            assert(i@ =~= s.skip(30));
        }
        let (i, filename) = match take::<ZipError>(i, fname_len as usize) {
            Ok(x) => x,
            Err(e) => {
                return Err(e);
            },
        };
        proof {
            assert(i@ =~= s.skip(30 + fname_len));
            assert(filename@ =~= s.subrange(30, 30 + fname_len));
            assert(s.len() >= 30 + fname_len + extra_field_len ==> i@.take(extra_field_len as int)
                =~= s.subrange(30 + fname_len, 30 + fname_len + extra_field_len));
        }
        let (i, extra_fields) = match parse_extra_fields(i, extra_field_len) {
            Ok(x) => x,
            Err(e) => {
                return Err(extra_fields_error(e, ZipError::InvalidLocalFileHeader));
            },
        };
        proof {
            assert(i@ =~= s.skip(30 + fname_len + extra_field_len));
        }
        Ok(
            (
                i,
                LocalFileHeader {
                    version_needed,
                    encrypted: bit_flags.0,
                    deflate_mode: bit_flags.1,
                    deferred_sizes: bit_flags.2,
                    compression_method,
                    last_mod,
                    crc_32,
                    is_zip64: compressed_size == u32::MAX || uncompressed_size == u32::MAX,
                    compressed_size,
                    uncompressed_size,
                    filename: slice_to_vec(filename),
                    extra_fields,
                },
            ),
        )
    }
}

impl DataDescriptor {
    /// Reads a data descriptor with sizes of 32 bits.
    pub fn parse_zip(i: &[u8]) -> (r: Result<(&[u8], DataDescriptor), ParseError<ZipError>>)
        ensures
            agrees_plain(r, spec_data_descriptor(i@, false)),
    {
        reveal(spec_data_descriptor);
        let ghost s = i@;
        let signature = DATA_DESCRIPTOR_TAG;
        let (i, tag) = match tag(i, signature.as_slice(), ZipError::InvalidDataDescriptor) {
            Ok((rest, _)) => (rest, true),
            Err(ParseError::Incomplete(n)) => {
                return Err(ParseError::Incomplete(n));
            },
            Err(_) => (i, false),
        };
        let ghost at: int = if tag {
            4
        } else {
            0
        };
        proof {
            assert(i@ =~= s.skip(at));
        }
        let (i, crc_32) = match le_u32::<ZipError>(i) {
            Ok(x) => x,
            Err(e) => {
                return Err(e);
            },
        };
        let (i, compressed_size) = match le_u32::<ZipError>(i) {
            Ok(x) => x,
            Err(e) => {
                return Err(e);
            },
        };
        let (i, uncompressed_size) = match le_u32::<ZipError>(i) {
            Ok(x) => x,
            Err(e) => {
                return Err(e);
            },
        };
        proof {
            assert(i@ =~= s.skip(at + 12));
        }
        Ok(
            (
                i,
                DataDescriptor {
                    tag,
                    crc_32,
                    uncompressed_size: uncompressed_size as u64,
                    compressed_size: compressed_size as u64,
                },
            ),
        )
    }

    /// Reads a data descriptor with sizes of 64 bits.
    pub fn parse_zip64(i: &[u8]) -> (r: Result<(&[u8], DataDescriptor), ParseError<ZipError>>)
        ensures
            agrees_plain(r, spec_data_descriptor(i@, true)),
    {
        reveal(spec_data_descriptor);
        let ghost s = i@;
        let signature = DATA_DESCRIPTOR_TAG;
        let (i, tag) = match tag(i, signature.as_slice(), ZipError::InvalidDataDescriptor) {
            Ok((rest, _)) => (rest, true),
            Err(ParseError::Incomplete(n)) => {
                return Err(ParseError::Incomplete(n));
            },
            Err(_) => (i, false),
        };
        let ghost at: int = if tag {
            4
        } else {
            0
        };
        proof {
            assert(i@ =~= s.skip(at));
        }
        let (i, crc_32) = match le_u32::<ZipError>(i) {
            Ok(x) => x,
            Err(e) => {
                return Err(e);
            },
        };
        proof {
            assert(i@ =~= s.skip(at + 4));
        }
        let (i, compressed_size) = match le_u64::<ZipError>(i) {
            Ok(x) => x,
            Err(e) => {
                return Err(e);
            },
        };
        proof {
            assert(i@ =~= s.skip(at + 12));
        }
        let (i, uncompressed_size) = match le_u64::<ZipError>(i) {
            Ok(x) => x,
            Err(e) => {
                return Err(e);
            },
        };
        proof {
            assert(i@ =~= s.skip(at + 20));
        }
        Ok((i, DataDescriptor { tag, crc_32, uncompressed_size, compressed_size }))
    }
}

impl CentralDirHeader {
    /// Reads a central directory header.
    #[verifier::rlimit(80)]
    pub fn parse(i: &[u8]) -> (r: Result<(&[u8], CentralDirHeader), ParseError<ZipError>>)
        ensures
            agrees(r, spec_central_dir_header(i@)),
    {
        reveal(spec_central_dir_header);
        let ghost s = i@;
        let signature = CENTRAL_DIR_HEADER_TAG;
        let (i, _) = match tag(i, signature.as_slice(), ZipError::NotCentralDirHeader) {
            Ok(x) => x,
            Err(e) => {
                return Err(e);
            },
        };
        let (i, version_made_by) = match parse_version_made_by(i) {
            Ok(x) => x,
            Err(e) => {
                return Err(e);
            },
        };
        let (i, version_needed) = match le_u16::<ZipError>(i) {
            Ok(x) => x,
            Err(e) => {
                return Err(e);
            },
        };
        let (i, bit_flags) = match parse_bitflags(i) {
            Ok(x) => x,
            Err(e) => {
                return Err(e);
            },
        };
        proof {
            assert(i@ =~= s.skip(10));
        }
        let (i, compression_method) = match parse_compression_method(i) {
            Ok(x) => x,
            Err(e) => {
                return Err(e);
            },
        };
        let (i, last_mod_time) = match le_u16::<ZipError>(i) {
            Ok(x) => x,
            Err(e) => {
                return Err(e);
            },
        };
        let (i, last_mod_date) = match le_u16::<ZipError>(i) {
            Ok(x) => x,
            Err(e) => {
                return Err(e);
            },
        };
        proof {
            assert(i@ =~= s.skip(16));
        }
        let (i, crc_32) = match le_u32::<ZipError>(i) {
            Ok(x) => x,
            Err(e) => {
                return Err(e);
            },
        };
        let (i, compressed_size) = match le_u32::<ZipError>(i) {
            Ok(x) => x,
            Err(e) => {
                return Err(e);
            },
        };
        let (i, uncompressed_size) = match le_u32::<ZipError>(i) {
            Ok(x) => x,
            Err(e) => {
                return Err(e);
            },
        };
        proof {
            assert(i@ =~= s.skip(28));
        }
        let (i, fname_len) = match le_u16::<ZipError>(i) {
            Ok(x) => x,
            Err(e) => {
                return Err(e);
            },
        };
        let (i, extra_field_len) = match le_u16::<ZipError>(i) {
            Ok(x) => x,
            Err(e) => {
                return Err(e);
            },
        };
        let (i, fcomment_len) = match le_u16::<ZipError>(i) {
            Ok(x) => x,
            Err(e) => {
                return Err(e);
            },
        };
        proof {
            assert(i@ =~= s.skip(34));
        }
        let (i, disk_no_start) = match le_u16::<ZipError>(i) {
            Ok(x) => x,
            Err(e) => {
                return Err(e);
            },
        };
        let (i, int_file_attrib) = match le_u16::<ZipError>(i) {
            Ok(x) => x,
            Err(e) => {
                return Err(e);
            },
        };
        proof {
            assert(i@ =~= s.skip(38));
        }
        let (i, ext_file_attrib) = match le_u32::<ZipError>(i) {
            Ok(x) => x,
            Err(e) => {
                return Err(e);
            },
        };
        let (i, rel_offset_loc_header) = match le_u32::<ZipError>(i) {
            Ok(x) => x,
            Err(e) => {
                return Err(e);
            },
        };
        proof {
            assert(i@ =~= s.skip(46));
        }
        let (i, filename) = match take::<ZipError>(i, fname_len as usize) {
            Ok(x) => x,
            Err(e) => {
                return Err(e);
            },
        };
        let ghost extra_at: int = 46 + fname_len;
        let ghost comment_at: int = extra_at + extra_field_len;
        proof {
            assert(i@ =~= s.skip(extra_at));
            assert(filename@ =~= s.subrange(46, extra_at));
            assert(s.len() >= comment_at ==> i@.take(extra_field_len as int) =~= s.subrange(
                extra_at,
                comment_at,
            ));
        }
        let (i, extra_fields) = match parse_extra_fields(i, extra_field_len) {
            Ok(x) => x,
            Err(e) => {
                return Err(extra_fields_error(e, ZipError::InvalidCentralDirHeader));
            },
        };
        proof {
            assert(i@ =~= s.skip(comment_at));
        }
        let (i, comment) = match take::<ZipError>(i, fcomment_len as usize) {
            Ok(x) => x,
            Err(e) => {
                return Err(e);
            },
        };
        proof {
            assert(i@ =~= s.skip(comment_at + fcomment_len));
            assert(comment@ =~= s.subrange(comment_at, comment_at + fcomment_len));
        }
        Ok(
            (
                i,
                CentralDirHeader {
                    version_made_by,
                    version_needed,
                    encrypted: bit_flags.0,
                    deflate_mode: bit_flags.1,
                    deferred_sizes: bit_flags.2,
                    compression_method,
                    last_mod_time,
                    last_mod_date,
                    crc_32,
                    compressed_size,
                    uncompressed_size,
                    disk_no_start,
                    int_file_attrib,
                    ext_file_attrib,
                    rel_offset_loc_header,
                    filename: slice_to_vec(filename),
                    extra_fields,
                    comment: slice_to_vec(comment),
                },
            ),
        )
    }
}

impl CentralDirEnd {
    /// Reads the end of the central directory.
    pub fn parse(i: &[u8]) -> (r: Result<(&[u8], CentralDirEnd), ParseError<ZipError>>)
        ensures
            agrees(r, spec_central_dir_end(i@)),
    {
        reveal(spec_central_dir_end);
        let ghost s = i@;
        let signature = CENTRAL_DIR_END_TAG;
        let (i, _) = match tag(i, signature.as_slice(), ZipError::InvalidCentralDirHeader) {
            Ok(x) => x,
            Err(e) => {
                return Err(e);
            },
        };
        let (i, this_disk_num) = match le_u16::<ZipError>(i) {
            Ok(x) => x,
            Err(e) => {
                return Err(e);
            },
        };
        let (i, central_dir_start_disk_num) = match le_u16::<ZipError>(i) {
            Ok(x) => x,
            Err(e) => {
                return Err(e);
            },
        };
        proof {
            assert(i@ =~= s.skip(8));
        }
        let (i, central_dir_num_entries_this_disk) = match le_u16::<ZipError>(i) {
            Ok(x) => x,
            Err(e) => {
                return Err(e);
            },
        };
        let (i, central_dir_num_entries_total) = match le_u16::<ZipError>(i) {
            Ok(x) => x,
            Err(e) => {
                return Err(e);
            },
        };
        proof {
            assert(i@ =~= s.skip(12));
        }
        let (i, central_dir_size) = match le_u32::<ZipError>(i) {
            Ok(x) => x,
            Err(e) => {
                return Err(e);
            },
        };
        let (i, central_dir_start_offset) = match le_u32::<ZipError>(i) {
            Ok(x) => x,
            Err(e) => {
                return Err(e);
            },
        };
        proof {
            assert(i@ =~= s.skip(20));
        }
        let (i, comment_len) = match le_u16::<ZipError>(i) {
            Ok(x) => x,
            Err(e) => {
                return Err(e);
            },
        };
        proof {
            assert(i@ =~= s.skip(22));
        }
        let (i, comment) = match take::<ZipError>(i, comment_len as usize) {
            Ok(x) => x,
            Err(e) => {
                return Err(e);
            },
        };
        proof {
            assert(i@ =~= s.skip(22 + comment_len));
            assert(comment@ =~= s.subrange(22, 22 + comment_len));
        }
        Ok(
            (
                i,
                CentralDirEnd {
                    this_disk_num,
                    central_dir_start_disk_num,
                    central_dir_num_entries_this_disk,
                    central_dir_num_entries_total,
                    central_dir_size,
                    central_dir_start_offset,
                    comment: slice_to_vec(comment),
                },
            ),
        )
    }
}

/// A local file header that parses takes at least 30 bytes, and leaves the
/// bytes that follow it.
pub proof fn lemma_local_file_header_len(s: Seq<u8>)
    ensures
        match spec_local_file_header(s) {
            Ok((rest, _)) => rest.len() + 30 <= s.len() && rest == s.skip(s.len() - rest.len()),
            Err(_) => true,
        },
{
    reveal(spec_local_file_header);
}

/// A data descriptor takes at least 12 bytes, and leaves the bytes that
/// follow it. Nothing but a lack of input keeps bytes from being one.
pub proof fn lemma_data_descriptor_len(s: Seq<u8>, wide: bool)
    ensures
        match spec_data_descriptor(s, wide) {
            Ok((rest, _)) => rest.len() + 12 <= s.len() && rest == s.skip(s.len() - rest.len()),
            Err(e) => e is Incomplete,
        },
{
    reveal(spec_data_descriptor);
}

/// A local file header parses the same whatever follows it, and what is
/// wrong with one stays wrong whatever follows: only bytes that are too few
/// leave open what more bytes will make of them.
pub proof fn lemma_local_file_header_extends(s: Seq<u8>, t: Seq<u8>)
    ensures
        match spec_local_file_header(s) {
            Ok((rest, header)) => spec_local_file_header(s + t) == Ok::<
                (Seq<u8>, LocalFileHeaderView),
                ParseError<ZipError>,
            >((rest + t, header)),
            Err(ParseError::Incomplete(_)) => true,
            Err(e) => spec_local_file_header(s + t) == Err::<
                (Seq<u8>, LocalFileHeaderView),
                ParseError<ZipError>,
            >(e),
        },
{
    reveal(spec_local_file_header);
    let u = s + t;
    assert forall|i: int| 0 <= i < s.len() implies u[i] == s[i] by {}
    if !agree_on_common_prefix(s, LOCAL_FILE_HEADER_TAG@) {
        let i = choose|i: int|
            0 <= i < s.len() && 0 <= i < LOCAL_FILE_HEADER_TAG@.len() && s[i]
                != LOCAL_FILE_HEADER_TAG@[i];
        assert(u[i] != LOCAL_FILE_HEADER_TAG@[i]);
    } else if s.len() >= 4 {
        assert(agree_on_common_prefix(u, LOCAL_FILE_HEADER_TAG@));
        if s.len() >= 30 {
            let fname_len = le16(s, 26);
            let extra_len = le16(s, 28);
            let n = 30 + fname_len + extra_len;
            if s.len() >= n {
                assert(u.subrange(30 + fname_len, n) =~= s.subrange(30 + fname_len, n));
                assert(u.subrange(30, 30 + fname_len) =~= s.subrange(30, 30 + fname_len));
                assert(u.skip(n) =~= s.skip(n) + t);
            }
        }
    }
}

/// A local file header parses the same with nothing behind it: a parser
/// looks at no byte behind what it consumes.
pub proof fn lemma_local_file_header_truncates(s: Seq<u8>, len: int)
    requires
        spec_local_file_header(s) is Ok,
        s.len() - spec_local_file_header(s)->Ok_0.0.len() <= len <= s.len(),
    ensures
        spec_local_file_header(s.take(len)) == Ok::<
            (Seq<u8>, LocalFileHeaderView),
            ParseError<ZipError>,
        >(
            (
                s.take(len).skip(s.len() - spec_local_file_header(s)->Ok_0.0.len()),
                spec_local_file_header(s)->Ok_0.1,
            ),
        ),
{
    reveal(spec_local_file_header);
    let u = s.take(len);
    let fname_len = le16(s, 26);
    let extra_len = le16(s, 28);
    let n = 30 + fname_len + extra_len;
    assert(agree_on_common_prefix(u, LOCAL_FILE_HEADER_TAG@));
    assert(u.subrange(30 + fname_len, n) =~= s.subrange(30 + fname_len, n));
    assert(u.subrange(30, 30 + fname_len) =~= s.subrange(30, 30 + fname_len));
}

/// A data descriptor parses the same with nothing behind it.
pub proof fn lemma_data_descriptor_truncates(s: Seq<u8>, wide: bool, len: int)
    requires
        spec_data_descriptor(s, wide) is Ok,
        s.len() - spec_data_descriptor(s, wide)->Ok_0.0.len() <= len <= s.len(),
    ensures
        spec_data_descriptor(s.take(len), wide) is Ok,
{
    reveal(spec_data_descriptor);
    let u = s.take(len);
    assert(agree_on_common_prefix(s, DATA_DESCRIPTOR_TAG@) <==> agree_on_common_prefix(
        u,
        DATA_DESCRIPTOR_TAG@,
    )) by {
        if !agree_on_common_prefix(s, DATA_DESCRIPTOR_TAG@) {
            let i = choose|i: int|
                0 <= i < s.len() && 0 <= i < DATA_DESCRIPTOR_TAG@.len() && s[i]
                    != DATA_DESCRIPTOR_TAG@[i];
            assert(u[i] != DATA_DESCRIPTOR_TAG@[i]);
        }
    }
}

/// Bytes too few for a data descriptor are fewer than 24.
pub proof fn lemma_data_descriptor_incomplete(s: Seq<u8>, wide: bool)
    ensures
        spec_data_descriptor(s, wide) is Err ==> s.len() < 24,
        s.len() < 12 ==> spec_data_descriptor(s, wide) is Err,
{
    reveal(spec_data_descriptor);
}

/// A central directory header parses the same whatever follows it, and
/// what is wrong with one stays wrong whatever follows.
pub proof fn lemma_central_dir_header_extends(s: Seq<u8>, t: Seq<u8>)
    ensures
        match spec_central_dir_header(s) {
            Ok((rest, header)) => spec_central_dir_header(s + t) == Ok::<
                (Seq<u8>, CentralDirHeaderView),
                ParseError<ZipError>,
            >((rest + t, header)),
            Err(ParseError::Incomplete(_)) => true,
            Err(e) => spec_central_dir_header(s + t) == Err::<
                (Seq<u8>, CentralDirHeaderView),
                ParseError<ZipError>,
            >(e),
        },
{
    reveal(spec_central_dir_header);
    let u = s + t;
    assert forall|i: int| 0 <= i < s.len() implies u[i] == s[i] by {}
    if !agree_on_common_prefix(s, CENTRAL_DIR_HEADER_TAG@) {
        let i = choose|i: int|
            0 <= i < s.len() && 0 <= i < CENTRAL_DIR_HEADER_TAG@.len() && s[i]
                != CENTRAL_DIR_HEADER_TAG@[i];
        assert(u[i] != CENTRAL_DIR_HEADER_TAG@[i]);
    } else if s.len() >= 4 {
        assert(agree_on_common_prefix(u, CENTRAL_DIR_HEADER_TAG@));
        if s.len() >= 46 {
            let fname_len = le16(s, 28);
            let extra_len = le16(s, 30);
            let comment_len = le16(s, 32);
            let extra_at = 46 + fname_len;
            let comment_at = extra_at + extra_len;
            if s.len() >= comment_at {
                assert(u.subrange(extra_at, comment_at) =~= s.subrange(extra_at, comment_at));
                if s.len() >= comment_at + comment_len {
                    assert(u.subrange(46, extra_at) =~= s.subrange(46, extra_at));
                    assert(u.subrange(comment_at, comment_at + comment_len) =~= s.subrange(
                        comment_at,
                        comment_at + comment_len,
                    ));
                    assert(u.skip(comment_at + comment_len) =~= s.skip(comment_at + comment_len)
                        + t);
                }
            }
        }
    }
}

/// Whether bytes start with the signature of a local file header shows in
/// their first four.
pub proof fn lemma_local_file_header_signature(s: Seq<u8>)
    ensures
        spec_local_file_header(s) == Err::<(Seq<u8>, LocalFileHeaderView), ParseError<ZipError>>(
            ParseError::Error(ZipError::NotLocalFileHeader),
        ) <==> !agree_on_common_prefix(s, LOCAL_FILE_HEADER_TAG@),
        agree_on_common_prefix(s, LOCAL_FILE_HEADER_TAG@) && s.len() < 30
            ==> !(spec_local_file_header(s) is Ok),
        s.len() < 4 && agree_on_common_prefix(s, LOCAL_FILE_HEADER_TAG@) ==> spec_local_file_header(
            s,
        ) matches Err(ParseError::Incomplete(_)),
{
    reveal(spec_local_file_header);
}

} // verus!
