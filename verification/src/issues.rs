//! The taxonomy of lint findings: advisory hints and portability issues.

use vstd::prelude::*;

verus! {

/// An advisory, non-portability-breaking observation. A hint never fails
/// the scan.
#[derive(Copy, Clone, Debug, PartialEq, Eq, PartialOrd, Ord, Structural)]
pub enum Hint {
    UnportableCharInPath,
    UnportableCharInString,
}

/// A concrete specification violation. The archive scan halts the first
/// time one is produced for a header, a PAX record or a cross-entry check.
#[derive(Copy, Clone, Debug, PartialEq, Eq, PartialOrd, Ord, Structural)]
pub enum Issue {
    AbsolutePath,
    DataPaddingNotNul,
    DevMajorWithoutSpecialFile,
    DevMinorWithoutSpecialFile,
    DirectoryWithoutSlash,
    DotDotPath,
    EmptyName,
    EmptyPath,
    FormatChanged,
    InvalidChecksum,
    InvalidMagic,
    InvalidMode,
    InvalidNumber,
    InvalidTypeFlag,
    InvalidVersion,
    LargeEntry,
    LinkToItself,
    LinkIsParent,
    LinknameForNonLink,
    MultiSlashPath,
    NoDataWithSize,
    NoNumber,
    PaxPath,
    PaxSize,
    ReadOnlyDirectoryWithEntries,
    RegularDirectory,
    TrailingByteNotNul,
    UnterminatedNumber,
    UnterminatedString,
    UnusedByteNotNul,
    PaxHeaderSizeOctal,
    PaxHeaderSizeTooLarge,
    PaxHeaderSizeInvalid,
    PaxGlobalHeader,
    PaxEmpty,
    PaxHeaderNoNewline,
    PaxHeaderNoEqualSign,
    PaxHeaderKeywordBlank,
    PaxHeaderKeywordEmpty,
    PaxHeaderKeywordDuplicate,
    PaxHeaderKeywordNoUtf8,
}

} // verus!
