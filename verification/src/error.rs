use vstd::prelude::*;

verus! {

/// Every way in which reading, validating or converting a save can be refused.
///
/// Entry, record and block numbers are one-based, as a user reads them.
#[derive(Debug, Clone, PartialEq, Eq)]
pub enum ConvertError {
    /// A little- or big-endian word was read past the end of the data.
    UnexpectedEnd,
    /// The key text does not hold exactly 64 bytes once cleaned up.
    KeyLength { label: String },
    /// The cleaned-up key text is not hexadecimal.
    KeyNotHex { label: String },
    /// A ZIP member name that could escape the archive root.
    UnsafeZipPath { name: String },
    /// An Xbox slot folder whose PC file name cannot be derived safely.
    SlotName { name: String },
    /// A UTF-16LE field with an odd number of bytes.
    Utf16OddLength,
    /// A UTF-16LE title that is not valid UTF-16.
    InvalidUtf16Title,
    /// The archive declares more uncompressed bytes than the safety limit.
    ArchiveTooLarge,
    /// Two ZIP members carry the same name.
    DuplicateMember { name: String },
    /// A ZIP member is a symbolic link.
    SymbolicLink { name: String },
    /// A slot folder holds the same save file twice.
    DuplicateSlotMember { folder: String, leaf: String },
    /// No story-save slot was found in the archive.
    NoSaveAtoms,
    /// A slot folder lacks its `Save Game Data` member.
    MissingData { folder: String },
    /// A slot folder lacks its `Save Game Header` member.
    MissingHeader { folder: String },
    /// A slot header does not have the Xbox header size.
    HeaderSize { folder: String },
    /// A slot header carries an unexpected version.
    HeaderVersion { folder: String },
    /// A slot header declares another data length than its data has.
    LengthMismatch { folder: String },
    /// A slot's encrypted data is empty or not a whole number of AES blocks.
    NotBlockAligned { folder: String },
    /// Two slots would be written to the same PC file.
    DuplicatePcName,
    /// AES-ECB input that is not a whole number of 16-byte blocks.
    AesUnaligned,
    /// A decrypted payload whose length cannot be an RSAV file.
    RsavLength,
    /// The RSAV magic, version, header size or table count is wrong.
    RsavHeader,
    /// The CODE block is not right behind the RSAV header.
    CodeBlockOffset,
    /// A block-table entry has the wrong block id or a non-zero reserved word.
    BlockEntry { entry: usize },
    /// A block-table entry is unaligned or too small.
    BlockAlignment { entry: usize },
    /// A block's offset plus size does not fit in a machine word.
    BlockOffsetOverflow,
    /// A block lies outside the payload or overlaps the RSAV header.
    BlockRange { entry: usize },
    /// A block does not start with its `S00n` section tag.
    SectionTag { entry: usize },
    /// Block `first` is not directly followed by block `first + 1`.
    BlocksNotContiguous { first: usize },
    /// The last block does not end where the payload ends.
    LastBlockEnd,
    /// The declared CODE length does not reach the first data block.
    CodeLength,
    /// The payload does not hold exactly ten CHKS records.
    ChecksumCount { found: usize },
    /// A CHKS record has an invalid header.
    ChecksumHeader { record: usize },
    /// A CHKS record covers bytes before the start of the payload.
    ChecksumRange { record: usize },
    /// A CHKS record does not cover exactly its block.
    ChecksumBlock { record: usize },
    /// A CHKS record's stored checksum differs from the computed one.
    ChecksumMismatch { record: usize, stored: u32, calculated: u32 },
    /// The payload does not end with the last CHKS record and `ENDS`.
    RsavEnding,
    /// Input to the per-word byte swap is not a whole number of words.
    WordUnaligned,
    /// A PC header does not have the PC header size.
    PcHeaderLength,
    /// A PC save file has an impossible length.
    PcLength,
    /// A PC save header carries an unexpected version.
    PcHeaderVersion,
    /// A PC save header's checksum does not match.
    PcHeaderChecksum,
    /// Re-encrypting a PC payload does not reproduce the file.
    PcRoundTrip,
    /// The Xbox key does not decrypt this slot to an RSAV frame.
    XboxKeyMismatch { slot: String },
    /// Re-encrypting the Xbox payload does not reproduce the slot data.
    XboxRoundTrip { slot: String },
    /// The PC file validates differently from the Xbox payload.
    PcValidationDiffers { slot: String },
    /// The PC file decrypts to another payload than the Xbox slot.
    PayloadChanged { slot: String },
}

} // verus!
