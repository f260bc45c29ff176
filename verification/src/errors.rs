//! The error taxonomy of the vault engine.

use vstd::prelude::*;

verus! {

/// Every way a vault operation can fail.
///
/// Decryption failures are deliberately opaque: a wrong passphrase,
/// a truncated ciphertext and a tampered ciphertext all surface as
/// `DecryptionFailed`, so that the error channel is not a
/// passphrase-guessing oracle.
#[derive(Debug, Clone, Copy, PartialEq, Eq, Structural)]
pub enum VaultError {
    /// An operation other than unlock was attempted while no session is open.
    VaultLocked,
    /// The id is absent from the entry index.
    EntryNotFound,
    /// The index row exists but the entry file does not.
    EntryContentMissing,
    /// The resolved attachment path does not exist.
    AttachmentNotFound,
    /// A given source path does not exist.
    SourceNotFound,
    /// An envelope or metadata `version` field differs from the engine's.
    UnsupportedVersion,
    /// Malformed JSON, malformed base64, or a wrong-length salt, nonce or IV.
    FormatError,
    /// An attachment buffer is too short to hold its header.
    TruncatedAttachment,
    /// Key derivation failed.
    KeyDerivationError,
    /// Authenticated encryption refused the payload.
    EncryptionFailed,
    /// Authenticated decryption failed; the cause is not told apart.
    DecryptionFailed,
    /// Zero-length attachment data.
    EmptyAttachment,
    /// A freshly generated id collided with an existing index row.
    IdCollision,
}

impl VaultError {
    /// A human-readable message, collapsed at the collaborator boundary.
    pub fn message(&self) -> &'static str {
        match self {
            VaultError::VaultLocked => "vault is locked",
            VaultError::EntryNotFound => "entry not found",
            VaultError::EntryContentMissing => "entry content missing",
            VaultError::AttachmentNotFound => "attachment not found",
            VaultError::SourceNotFound => "source file not found",
            VaultError::UnsupportedVersion => "unsupported envelope version",
            VaultError::FormatError => "malformed vault data",
            VaultError::TruncatedAttachment => "attachment data is truncated",
            VaultError::KeyDerivationError => "failed to derive key",
            VaultError::EncryptionFailed => "encryption failed",
            VaultError::DecryptionFailed => "decryption failed",
            VaultError::EmptyAttachment => "attachment data is empty",
            VaultError::IdCollision => "generated id already in use",
        }
    }
}

} // verus!
