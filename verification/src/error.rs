//! Error types of the library.

use vstd::prelude::*;
use crate::notation::{law_decimal, reading};
use crate::text::{decimal, push_decimal};

verus! {

/// Why a storage device could not serve a request.
#[derive(Debug)]
pub enum IoError {
    /// A read reached past the last byte of the device.
    UnexpectedEof,
    /// A write reached past the last byte the device can ever hold.
    OutOfSpace,
    /// The device itself reported a failure.
    Device(String),
}

/// All errors that operations on a volume can report.
#[derive(Debug)]
pub enum FatxError {
    /// The underlying device failed.
    Io(IoError),
    /// The first four bytes of the volume are neither "FATX" nor "XTAF".
    BadMagic([u8; 4]),
    /// Sectors per cluster is not a power of two in 1..=128.
    BadSectorsPerCluster(u32),
    /// The volume cannot hold a superblock and one sector.
    VolumeTooSmall,
    /// A cluster number (first) above the highest valid one (second), or zero.
    ClusterOutOfRange(u32, u32),
    /// No entry of that name.
    FileNotFound(String),
    /// A path component names a file.
    NotADirectory(String),
    /// A file operation was asked for on a directory.
    IsADirectory(String),
    /// Only empty directories can be deleted.
    DirectoryNotEmpty(String),
    /// Length of the name, and the longest length allowed.
    FilenameTooLong(usize, usize),
    /// A character that no file name can hold.
    InvalidFilenameChar(char),
    /// The name is already taken.
    FileExists(String),
    /// Not enough free clusters.
    DiskFull,
    /// No free slot in a directory.
    DirectoryFull,
    /// The chain cannot be followed beyond this cluster.
    CorruptChain(u32),
    /// No known partition holds a volume.
    NoPartitionFound,
    /// Any other failure, described in words.
    Other(String),
}

/// Result type of volume operations.
pub type Result<T> = core::result::Result<T, FatxError>;

/// The kind of an [`IoError`], without the device's own words.
pub enum IoKind {
    UnexpectedEof,
    OutOfSpace,
    Device,
}

/// What a [`FatxError`] says, as a mathematical value.
#[verifier::ext_equal]
pub enum ErrView {
    Io(IoKind),
    BadMagic(Seq<u8>),
    BadSectorsPerCluster(u32),
    VolumeTooSmall,
    ClusterOutOfRange(u32, u32),
    FileNotFound(Seq<char>),
    NotADirectory(Seq<char>),
    IsADirectory(Seq<char>),
    DirectoryNotEmpty(Seq<char>),
    FilenameTooLong(nat, nat),
    InvalidFilenameChar(char),
    FileExists(Seq<char>),
    DiskFull,
    DirectoryFull,
    CorruptChain(u32),
    NoPartitionFound,
    Other(Seq<char>),
}

impl View for IoError {
    type V = IoKind;

    open spec fn view(&self) -> IoKind {
        match self {
            IoError::UnexpectedEof => IoKind::UnexpectedEof,
            IoError::OutOfSpace => IoKind::OutOfSpace,
            IoError::Device(_) => IoKind::Device,
        }
    }
}

impl View for FatxError {
    type V = ErrView;

    open spec fn view(&self) -> ErrView {
        match self {
            FatxError::Io(e) => ErrView::Io(e@),
            FatxError::BadMagic(m) => ErrView::BadMagic(m@),
            FatxError::BadSectorsPerCluster(n) => ErrView::BadSectorsPerCluster(*n),
            FatxError::VolumeTooSmall => ErrView::VolumeTooSmall,
            FatxError::ClusterOutOfRange(c, max) => ErrView::ClusterOutOfRange(*c, *max),
            FatxError::FileNotFound(s) => ErrView::FileNotFound(s@),
            FatxError::NotADirectory(s) => ErrView::NotADirectory(s@),
            FatxError::IsADirectory(s) => ErrView::IsADirectory(s@),
            FatxError::DirectoryNotEmpty(s) => ErrView::DirectoryNotEmpty(s@),
            FatxError::FilenameTooLong(n, max) => ErrView::FilenameTooLong(*n as nat, *max as nat),
            FatxError::InvalidFilenameChar(c) => ErrView::InvalidFilenameChar(*c),
            FatxError::FileExists(s) => ErrView::FileExists(s@),
            FatxError::DiskFull => ErrView::DiskFull,
            FatxError::DirectoryFull => ErrView::DirectoryFull,
            FatxError::CorruptChain(c) => ErrView::CorruptChain(*c),
            FatxError::NoPartitionFound => ErrView::NoPartitionFound,
            FatxError::Other(s) => ErrView::Other(s@),
        }
    }
}

/// The error a device raises when it fails for reasons of its own.
pub open spec fn device_fault() -> ErrView {
    ErrView::Io(IoKind::Device)
}

/// The words of an I/O error; those of a device's own failures are the device's.
pub open spec fn io_text(kind: IoKind) -> Seq<char> {
    match kind {
        IoKind::UnexpectedEof => "failed to fill whole buffer"@,
        IoKind::OutOfSpace => "no storage space"@,
        IoKind::Device => seq![],
    }
}

/// Bytes as a list in brackets.
pub open spec fn byte_list(b: Seq<u8>, i: int) -> Seq<char>
    decreases b.len() - i,
{
    if i < 0 || i >= b.len() {
        "]"@
    } else {
        (if i == 0 {
            "["@
        } else {
            ", "@
        }) + decimal(b[i] as nat) + byte_list(b, i + 1)
    }
}

/// What an error says in words.
pub open spec fn error_text(e: ErrView) -> Seq<char> {
    match e {
        ErrView::Io(kind) => "I/O error: "@ + io_text(kind),
        ErrView::BadMagic(m) => "Invalid FATX magic: expected 'FATX', got "@ + byte_list(m, 0),
        ErrView::BadSectorsPerCluster(n) => "Invalid sectors-per-cluster value: "@ + decimal(
            n as nat,
        ) + " (must be power of 2, 1..128)"@,
        ErrView::VolumeTooSmall => "Volume is too small to contain a valid FATX filesystem"@,
        ErrView::ClusterOutOfRange(c, max) => "Cluster "@ + decimal(c as nat)
            + " is out of range (max "@ + decimal(max as nat) + ")"@,
        ErrView::FileNotFound(s) => "File not found: "@ + s,
        ErrView::NotADirectory(s) => "Path is not a directory: "@ + s,
        ErrView::IsADirectory(s) => "Path is a directory: "@ + s,
        ErrView::DirectoryNotEmpty(s) => "Directory is not empty: "@ + s,
        ErrView::FilenameTooLong(n, max) => "Filename too long: "@ + decimal(n) + " chars (max "@
            + decimal(max) + ")"@,
        ErrView::InvalidFilenameChar(c) => "Invalid filename character: '"@.push(c) + "'"@,
        ErrView::FileExists(s) => "File or directory already exists: "@ + s,
        ErrView::DiskFull => "No free clusters available"@,
        ErrView::DirectoryFull => "Directory is full (no free entry slots)"@,
        ErrView::CorruptChain(c) => "Corrupt FAT chain at cluster "@ + decimal(c as nat),
        ErrView::NoPartitionFound => "No FATX partition found at the expected offset"@,
        ErrView::Other(s) => s,
    }
}

fn put(s: &mut String, words: &str)
    ensures
        final(s)@ == old(s)@ + words@,
{
    vstd::string::StringExecFns::append(s, words);
}

impl FatxError {
    /// What the error says in words.
    pub fn message(&self) -> (s: String)
        ensures
            self@ != device_fault() ==> s@ == error_text(self@),
            self matches FatxError::Io(IoError::Device(words)) ==> s@ == "I/O error: "@ + words@,
    {
        let mut s = String::new();
        match self {
            FatxError::Io(e) => {
                put(&mut s, "I/O error: ");
                match e {
                    IoError::UnexpectedEof => put(&mut s, "failed to fill whole buffer"),
                    IoError::OutOfSpace => put(&mut s, "no storage space"),
                    IoError::Device(words) => put(&mut s, words.as_str()),
                }
            },
            FatxError::BadMagic(m) => {
                put(&mut s, "Invalid FATX magic: expected 'FATX', got ");
                let ghost head = s@;
                let mut i: usize = 0;
                while i < 4
                    invariant
                        i <= 4,
                        s@ + byte_list(m@, i as int) == head + byte_list(m@, 0),
                    decreases 4 - i,
                {
                    let ghost before = s@;
                    if i == 0 {
                        put(&mut s, "[");
                    } else {
                        put(&mut s, ", ");
                    }
                    push_decimal(&mut s, m[i] as u64);
                    assert(s@ + byte_list(m@, i + 1) =~= before + byte_list(m@, i as int));
                    i = i + 1;
                }
                put(&mut s, "]");
            },
            FatxError::BadSectorsPerCluster(n) => {
                put(&mut s, "Invalid sectors-per-cluster value: ");
                push_decimal(&mut s, *n as u64);
                put(&mut s, " (must be power of 2, 1..128)");
            },
            FatxError::VolumeTooSmall => put(
                &mut s,
                "Volume is too small to contain a valid FATX filesystem",
            ),
            FatxError::ClusterOutOfRange(c, max) => {
                put(&mut s, "Cluster ");
                push_decimal(&mut s, *c as u64);
                put(&mut s, " is out of range (max ");
                push_decimal(&mut s, *max as u64);
                put(&mut s, ")");
            },
            FatxError::FileNotFound(name) => {
                put(&mut s, "File not found: ");
                put(&mut s, name.as_str());
            },
            FatxError::NotADirectory(name) => {
                put(&mut s, "Path is not a directory: ");
                put(&mut s, name.as_str());
            },
            FatxError::IsADirectory(name) => {
                put(&mut s, "Path is a directory: ");
                put(&mut s, name.as_str());
            },
            FatxError::DirectoryNotEmpty(name) => {
                put(&mut s, "Directory is not empty: ");
                put(&mut s, name.as_str());
            },
            FatxError::FilenameTooLong(n, max) => {
                put(&mut s, "Filename too long: ");
                push_decimal(&mut s, *n as u64);
                put(&mut s, " chars (max ");
                push_decimal(&mut s, *max as u64);
                put(&mut s, ")");
            },
            FatxError::InvalidFilenameChar(c) => {
                put(&mut s, "Invalid filename character: '");
                s.push(*c);
                put(&mut s, "'");
            },
            FatxError::FileExists(name) => {
                put(&mut s, "File or directory already exists: ");
                put(&mut s, name.as_str());
            },
            FatxError::DiskFull => put(&mut s, "No free clusters available"),
            FatxError::DirectoryFull => put(&mut s, "Directory is full (no free entry slots)"),
            FatxError::CorruptChain(c) => {
                put(&mut s, "Corrupt FAT chain at cluster ");
                push_decimal(&mut s, *c as u64);
            },
            FatxError::NoPartitionFound => put(
                &mut s,
                "No FATX partition found at the expected offset",
            ),
            FatxError::Other(words) => put(&mut s, words.as_str()),
        }
        assert(self@ != device_fault() ==> s@ =~= error_text(self@));
        assert(self matches FatxError::Io(IoError::Device(words)) ==> s@ =~= "I/O error: "@
            + words@);
        s
    }
}

/// What an error is about is in its words: the cluster, the length, the name or the path, in full
/// and at its place.
pub proof fn law_words_of_errors(c: u32, max: u32, s: Seq<char>, n: nat, m: nat, ch: char)
    ensures
        reading(decimal(c as nat), 10) == c,
        reading(decimal(n), 10) == n,
        error_text(ErrView::ClusterOutOfRange(c, max)) == "Cluster "@ + decimal(c as nat)
            + " is out of range (max "@ + decimal(max as nat) + ")"@,
        error_text(ErrView::CorruptChain(c)) == "Corrupt FAT chain at cluster "@ + decimal(
            c as nat,
        ),
        error_text(ErrView::BadSectorsPerCluster(c)) == "Invalid sectors-per-cluster value: "@
            + decimal(c as nat) + " (must be power of 2, 1..128)"@,
        error_text(ErrView::FilenameTooLong(n, m)) == "Filename too long: "@ + decimal(n)
            + " chars (max "@ + decimal(m) + ")"@,
        error_text(ErrView::InvalidFilenameChar(ch)) == "Invalid filename character: '"@ + seq![ch]
            + "'"@,
        error_text(ErrView::FileNotFound(s)) == "File not found: "@ + s,
        error_text(ErrView::NotADirectory(s)) == "Path is not a directory: "@ + s,
        error_text(ErrView::IsADirectory(s)) == "Path is a directory: "@ + s,
        error_text(ErrView::DirectoryNotEmpty(s)) == "Directory is not empty: "@ + s,
        error_text(ErrView::FileExists(s)) == "File or directory already exists: "@ + s,
        error_text(ErrView::Other(s)) == s,
{
    law_decimal(c as nat);
    law_decimal(n);
    assert("Invalid filename character: '"@.push(ch) =~= "Invalid filename character: '"@
        + seq![ch]);
}

} // verus!
