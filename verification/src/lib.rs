//! A passphrase-protected journal vault engine.
//!
//! The library holds the verified core of an encrypted journal store:
//! key derivation, the on-disk envelope codec, the attachment cipher,
//! and the in-memory vault state machine.  All file input and output is
//! left to the caller: operations that touch the disk take the bytes
//! that were read and return the writes to perform.

pub mod attach;
pub mod b64;
pub mod codec;
pub mod crypto;
pub mod envelope;
pub mod errors;
pub mod json;
pub mod timefmt;
pub mod vault;

pub use codec::EntryInfo;
pub use codec::TextEncryption;
pub use errors::VaultError;
pub use vault::Entry;
pub use vault::FileWrite;
pub use vault::UnlockResponse;
pub use vault::UnlockedVault;
pub use vault::VaultManager;

use vstd::prelude::*;
use vstd::string::StringExecFns;

verus! {

/// The metadata file of a vault rooted at `base`: `<base>/vault.json`.
pub fn vault_file_path(base: String) -> (r: String)
    ensures
        r@ == base@ + "/"@ + "vault.json"@,
{
    let mut out = base;
    out.append("/");
    out.append("vault.json");
    out
}

} // verus!
