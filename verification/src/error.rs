use vstd::prelude::*;

verus! {

/// The error kinds surfaced by the store.
#[derive(Debug, Clone, Copy, PartialEq, Eq, Structural)]
pub enum CoreError {
    /// Decryption failed, or the decrypted bytes failed to deserialize.
    /// The two causes are deliberately conflated so that a wrong
    /// passphrase, a decoy slot and corrupt ciphertext are externally
    /// indistinguishable.
    Aead,
    /// A new or changed passphrase already opens an existing drawer.
    DuplicatePassphrase,
    /// The on-disk bytes fail structural parsing.
    CorruptFile,
    /// The file version or KDF parameter identifier is unknown.
    UnsupportedVersion,
    /// A read or write failed at the filesystem boundary.
    Io,
    /// An internal invariant was violated.
    Internal,
}

} // verus!
