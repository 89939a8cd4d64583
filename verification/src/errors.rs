use vstd::prelude::*;

verus! {

/// Every failure the pipeline can report. The kinds mirror the stages:
/// trailer decoding, cover append/parse, multi-cover assembly, the crypto
/// layer and the archive layer.
#[derive(Debug)]
pub enum Error {
    /// An underlying byte-stream operation failed.
    IOError,
    /// Appending payload and trailer would push the cover past the 2 GiB
    /// ceiling that the Windows loader enforces on PE images.
    CoverTooLarge,
    /// The trailer bytes fail the semantic checks of the codec.
    InvalidTrailer,
    /// The cover at this index of the list handed in carries no readable
    /// payload (too short, or its trailer is invalid). An adapter working on
    /// a single cover reports index 0.
    NotACover(usize),
    /// Covers of one set disagree on whether the payload is encrypted.
    InconsistentEncryption,
    /// Covers of one set disagree on the total part count.
    InconsistentTotalParts,
    /// More covers were handed in than the trailers' total part count.
    TooManyParts,
    /// Fewer covers than parts; carries the missing part numbers ascending.
    MissingParts(Vec<u16>),
    /// The same part number occurs on two covers of the set.
    DuplicateParts,
    /// The encryption stage failed.
    EncryptFailed,
    /// Decryption failed: wrong passphrase or corrupted ciphertext,
    /// deliberately not distinguished.
    DecryptFailed,
    /// The trailers say the payload is encrypted but no passphrase was given.
    EncryptedPayloadNoPassword,
    /// More than 32767 covers were requested.
    TooManyCovers,
    /// The archive container or a compressed entry cannot be decoded.
    ArchiveCorrupt,
    /// The cover at this index is too short to hold the payload bytes its
    /// trailer announces.
    ChunkReadFailed(usize),
}

} // verus!
