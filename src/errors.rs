use vstd::prelude::*;

verus! {

/// An I/O error of the standard library, carried through unchanged.
#[verifier::external_type_specification]
#[verifier::external_body]
pub struct ExIoError(std::io::Error);

/// One of the four fields of a header block.
#[derive(Clone, Copy, Debug, PartialEq, Eq, Structural)]
pub enum Field {
    Name,
    Size,
    Mtime,
    Prefix,
}

/// A field of a header block that could not be decoded.
#[derive(Clone, Copy, Debug, PartialEq, Eq, Structural)]
pub enum BlockParseError {
    /// The field's bytes are not valid UTF-8.
    FromUtf8Error(Field),
    /// The field's text is not an unsigned 64-bit decimal number.
    IntoU64Error(Field),
}

/// A header block that could not be read.
#[derive(Clone, Copy, Debug, PartialEq, Eq, Structural)]
pub enum HeaderError {
    BlockParseError(BlockParseError),
    /// Fewer bytes than a whole header block were available.
    IncompleteHeader,
}

/// A value that does not fit its fixed-width slot in a header block.
#[derive(Clone, Copy, Debug, PartialEq, Eq, Structural)]
pub enum LengthExceededError {
    /// The file name is longer than 255 bytes.
    Name,
    /// The decimal text of the file size is longer than 14 bytes.
    Size,
    /// The decimal text of the modification time is longer than 12 bytes.
    Mtime,
    /// The parent directories are longer than 4096 bytes.
    Prefix,
}

/// Failure to build a header for a file, or to read an archive's headers.
#[derive(Debug)]
pub enum FileParseError {
    /// The file's metadata could not be read.
    Metadata,
    /// The path has no final component to take as the file name.
    EmptyName,
    /// The file's modification time could not be read.
    ReadLastModified,
    /// The modification time lies before the Unix epoch.
    UnixEpoch,
    Length(LengthExceededError),
    Header(HeaderError),
    FileRead(std::io::Error),
}

/// Why an entry's path cannot be made into a path inside the destination.
#[derive(Clone, Copy, Debug, PartialEq, Eq, Structural)]
pub enum PathSanitizationError {
    /// It still starts at a root once one root separator is stripped.
    Rooted,
    /// A component starts with `..`.
    ParentComponent,
    /// It starts with a drive, such as `C:`.
    DrivePrefix,
}

/// Failure while extracting entries of an archive.
#[derive(Debug)]
pub enum ExtractError {
    PathSanitization(PathSanitizationError),
    FileRead(std::io::Error),
}

/// Failure while collecting files for an archive or writing it.
#[derive(Debug)]
pub enum ArchiveError {
    FileCreation(std::io::Error),
    EntryAddition(std::io::Error),
    DirectoryTraversal(std::io::Error),
    FileParse(FileParseError),
    FileWrite(std::io::Error),
}

} // verus!
