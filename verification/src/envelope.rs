//! Sealing and opening the two encrypted envelopes.
//!
//! A metadata envelope carries the whole entry index; an entry envelope
//! carries one entry's content.  Sealing encodes the payload, encrypts it
//! under the session key with a fresh random nonce, and wraps nonce and
//! ciphertext in the JSON container.  Opening reverses this; every opening
//! function carries, besides its exact contract, the round-trip clause
//! that whatever was sealed opens back to the same value.

use vstd::prelude::*;
use vstd::string::StringSliceAdditionalSpecFns;
use vstd::utf8::decode_utf8;
use vstd::utf8::encode_utf8;
use vstd::utf8::valid_utf8;

use crate::b64::b64_dec_of;
use crate::b64::b64_decode;
use crate::b64::b64_encode;
use crate::b64::b64_of;
use crate::codec::enc_meta_payload;
use crate::codec::enc_stored_entry;
use crate::codec::enc_stored_vault;
use crate::codec::encode_meta_payload;
use crate::codec::encode_stored_entry;
use crate::codec::encode_stored_vault;
use crate::codec::infos_view;
use crate::codec::lemma_meta_payload_round_trip;
use crate::codec::lemma_stored_entry_round_trip;
use crate::codec::lemma_stored_vault_round_trip;
use crate::codec::parse_meta_payload;
use crate::codec::parse_stored_entry;
use crate::codec::parse_stored_vault;
use crate::codec::spec_parse_meta_payload;
use crate::codec::spec_parse_stored_entry;
use crate::codec::spec_parse_stored_vault;
use crate::codec::vec_to_string;
use crate::codec::EntryInfo;
use crate::codec::EntryInfoV;
use crate::codec::StoredEntryV;
use crate::codec::StoredVaultV;
use crate::crypto::aes256_gcm_open;
use crate::crypto::aes256_gcm_seal;
use crate::crypto::argon2id_key_of;
use crate::crypto::argon2id_derive;
use crate::crypto::gcm_decrypt;
use crate::crypto::gcm_encrypt;
use crate::crypto::random_bytes;
use crate::errors::VaultError;
use crate::timefmt::MAX_TIMESTAMP;

verus! {

/// The version written into every envelope this engine produces.
pub const ENVELOPE_VERSION: u64 = 1;

/// An index row the engine keeps: both timestamps within the range the
/// engine can render and re-encode.
pub open spec fn entry_info_wf(e: EntryInfoV) -> bool {
    e.created_at <= MAX_TIMESTAMP && e.updated_at <= MAX_TIMESTAMP
}

/// Every row of an index is well formed.
pub open spec fn entries_wf(es: Seq<EntryInfoV>) -> bool {
    forall|i: int| 0 <= i < es.len() ==> entry_info_wf(#[trigger] es[i])
}

/// No two rows of an index carry the same id.
pub open spec fn ids_unique(es: Seq<EntryInfoV>) -> bool {
    forall|i: int, j: int|
        0 <= i < j < es.len() ==> (#[trigger] es[i]).id != (#[trigger] es[j]).id
}

/// A passphrase short enough for key derivation.
pub open spec fn passphrase_ok(pass: Seq<char>) -> bool {
    encode_utf8(pass).len() <= 0xFFFF_FFFF
}

/// The bytes of a metadata envelope sealed under `key` with `nonce`.
pub open spec fn sealed_vault_bytes(
    key: Seq<u8>,
    salt: Seq<u8>,
    nonce: Seq<u8>,
    es: Seq<EntryInfoV>,
    now: u64,
) -> Seq<u8> {
    enc_stored_vault(
        ENVELOPE_VERSION,
        b64_of(salt),
        b64_of(nonce),
        b64_of(aes256_gcm_seal(key, nonce, enc_meta_payload(ENVELOPE_VERSION, es))),
        Some(now),
    )
}

/// The bytes of an entry envelope sealed under `key` with `nonce`.
pub open spec fn sealed_entry_bytes(key: Seq<u8>, nonce: Seq<u8>, content: Seq<char>) -> Seq<u8> {
    enc_stored_entry(
        ENVELOPE_VERSION,
        b64_of(nonce),
        b64_of(aes256_gcm_seal(key, nonce, encode_utf8(content))),
    )
}

/// Derives the 32-byte session key from a passphrase and a 16-byte salt,
/// under the engine's fixed Argon2id parameters.  The salt is generated
/// once at vault creation and stored; the key itself is never persisted.
pub fn derive_key(passphrase: &str, salt: &Vec<u8>) -> (r: Result<Vec<u8>, VaultError>)
    requires
        salt@.len() == 16,
    ensures
        r is Ok <==> passphrase_ok(passphrase@),
        r matches Ok(k) ==> k@ == argon2id_key_of(passphrase@, salt@) && k@.len() == 32,
        r is Err ==> r == Err::<Vec<u8>, VaultError>(VaultError::KeyDerivationError),
{
    match argon2id_derive(passphrase, salt.as_slice()) {
        None => Err(VaultError::KeyDerivationError),
        Some(k) => Ok(k),
    }
}

/// Seals the metadata envelope with a caller-supplied nonce.
pub fn seal_vault_with(
    key: &Vec<u8>,
    salt: &Vec<u8>,
    entries: &Vec<EntryInfo>,
    now: u64,
    nonce: &Vec<u8>,
) -> (r: Result<Vec<u8>, VaultError>)
    requires
        key@.len() == 32,
        salt@.len() == 16,
        nonce@.len() == 12,
    ensures
        r matches Ok(b) ==> b@ == sealed_vault_bytes(key@, salt@, nonce@, infos_view(entries@), now),
        r is Ok <==> enc_meta_payload(ENVELOPE_VERSION, infos_view(entries@)).len()
            <= 0x10_0000_0000,
        r is Err ==> r == Err::<Vec<u8>, VaultError>(VaultError::EncryptionFailed),
{
    let payload = encode_meta_payload(ENVELOPE_VERSION, entries);
    let ct = match gcm_encrypt(key.as_slice(), nonce.as_slice(), payload.as_slice()) {
        None => {
            return Err(VaultError::EncryptionFailed);
        },
        Some(c) => c,
    };
    let salt_b64 = b64_encode(salt.as_slice());
    let nonce_b64 = b64_encode(nonce.as_slice());
    let ct_b64 = b64_encode(ct.as_slice());
    Ok(
        encode_stored_vault(
            ENVELOPE_VERSION,
            salt_b64.as_str(),
            nonce_b64.as_str(),
            ct_b64.as_str(),
            Some(now),
        ),
    )
}

/// Seals the metadata envelope with a fresh random nonce.
pub fn seal_vault(key: &Vec<u8>, salt: &Vec<u8>, entries: &Vec<EntryInfo>, now: u64) -> (r: Result<
    Vec<u8>,
    VaultError,
>)
    requires
        key@.len() == 32,
        salt@.len() == 16,
    ensures
        r matches Ok(b) ==> exists|nonce: Seq<u8>|
            nonce.len() == 12 && b@ == #[trigger] sealed_vault_bytes(
                key@,
                salt@,
                nonce,
                infos_view(entries@),
                now,
            ),
        r is Ok <==> enc_meta_payload(ENVELOPE_VERSION, infos_view(entries@)).len()
            <= 0x10_0000_0000,
        r is Err ==> r == Err::<Vec<u8>, VaultError>(VaultError::EncryptionFailed),
{
    let nonce = random_bytes(12);
    let r = seal_vault_with(key, salt, entries, now, &nonce);
    proof {
        if r is Ok {
            assert(r->Ok_0@ == sealed_vault_bytes(key@, salt@, nonce@, infos_view(entries@), now));
        }
    }
    r
}

/// Seals an entry envelope with a caller-supplied nonce.
pub fn seal_entry_with(key: &Vec<u8>, content: &str, nonce: &Vec<u8>) -> (r: Result<
    Vec<u8>,
    VaultError,
>)
    requires
        key@.len() == 32,
        nonce@.len() == 12,
    ensures
        r matches Ok(b) ==> b@ == sealed_entry_bytes(key@, nonce@, content@),
        r is Ok <==> content.spec_bytes().len() <= 0x10_0000_0000,
        r is Err ==> r == Err::<Vec<u8>, VaultError>(VaultError::EncryptionFailed),
{
    let ct = match gcm_encrypt(key.as_slice(), nonce.as_slice(), content.as_bytes()) {
        None => {
            return Err(VaultError::EncryptionFailed);
        },
        Some(c) => c,
    };
    let nonce_b64 = b64_encode(nonce.as_slice());
    let ct_b64 = b64_encode(ct.as_slice());
    Ok(encode_stored_entry(ENVELOPE_VERSION, nonce_b64.as_str(), ct_b64.as_str()))
}

/// Seals an entry envelope with a fresh random nonce.
pub fn seal_entry(key: &Vec<u8>, content: &str) -> (r: Result<Vec<u8>, VaultError>)
    requires
        key@.len() == 32,
    ensures
        r matches Ok(b) ==> exists|nonce: Seq<u8>|
            nonce.len() == 12 && b@ == #[trigger] sealed_entry_bytes(key@, nonce, content@),
        r is Ok <==> content.spec_bytes().len() <= 0x10_0000_0000,
        r is Err ==> r == Err::<Vec<u8>, VaultError>(VaultError::EncryptionFailed),
{
    let nonce = random_bytes(12);
    let r = seal_entry_with(key, content, &nonce);
    proof {
        if r is Ok {
            assert(r->Ok_0@ == sealed_entry_bytes(key@, nonce@, content@));
        }
    }
    r
}

/// What opening an entry envelope yields, for every input.
pub open spec fn spec_open_entry(key: Seq<u8>, bytes: Seq<u8>) -> Result<Seq<char>, VaultError> {
    match spec_parse_stored_entry(bytes) {
        None => Err(VaultError::FormatError),
        Some(se) => if se.version != ENVELOPE_VERSION {
            Err(VaultError::UnsupportedVersion)
        } else {
            match b64_dec_of(se.nonce_b64) {
                None => Err(VaultError::FormatError),
                Some(nonce) => if nonce.len() != 12 {
                    Err(VaultError::FormatError)
                } else {
                    match b64_dec_of(se.ct_b64) {
                        None => Err(VaultError::FormatError),
                        Some(ct) => match aes256_gcm_open(key, nonce, ct) {
                            None => Err(VaultError::DecryptionFailed),
                            Some(pt) => if valid_utf8(pt) {
                                Ok(decode_utf8(pt))
                            } else {
                                Err(VaultError::FormatError)
                            },
                        },
                    }
                },
            }
        },
    }
}

/// Opens an entry envelope: parses the container, decodes nonce and
/// ciphertext, decrypts, and checks the content is text.
///
/// Besides the exact contract, the last clause is the round trip: an
/// envelope sealed under this key opens back to the sealed content.
#[verifier::rlimit(100)]
pub fn open_entry(key: &Vec<u8>, bytes: &Vec<u8>) -> (r: Result<String, VaultError>)
    requires
        key@.len() == 32,
    ensures
        match r {
            Ok(s) => spec_open_entry(key@, bytes@) == Ok::<Seq<char>, VaultError>(s@),
            Err(e) => spec_open_entry(key@, bytes@) == Err::<Seq<char>, VaultError>(e),
        },
        forall|nonce: Seq<u8>, content: Seq<char>|
            nonce.len() == 12 && bytes@ == #[trigger] sealed_entry_bytes(key@, nonce, content)
                ==> r is Ok && r->Ok_0@ == content,
{
    let se = match parse_stored_entry(bytes) {
        None => {
            proof {
                assert forall|nonce: Seq<u8>, content: Seq<char>|
                    nonce.len() == 12 && bytes@ == #[trigger] sealed_entry_bytes(
                        key@,
                        nonce,
                        content,
                    ) implies false by {
                    lemma_stored_entry_round_trip(
                        ENVELOPE_VERSION,
                        b64_of(nonce),
                        b64_of(aes256_gcm_seal(key@, nonce, encode_utf8(content))),
                    );
                }
            }
            return Err(VaultError::FormatError);
        },
        Some(se) => se,
    };
    let ghost se0 = se@;
    proof {
        assert forall|nonce: Seq<u8>, content: Seq<char>|
            nonce.len() == 12 && bytes@ == #[trigger] sealed_entry_bytes(key@, nonce, content)
                implies se0 == (StoredEntryV {
            version: ENVELOPE_VERSION,
            nonce_b64: b64_of(nonce),
            ct_b64: b64_of(aes256_gcm_seal(key@, nonce, encode_utf8(content))),
        }) by {
            lemma_stored_entry_round_trip(
                ENVELOPE_VERSION,
                b64_of(nonce),
                b64_of(aes256_gcm_seal(key@, nonce, encode_utf8(content))),
            );
        }
    }
    if se.version != ENVELOPE_VERSION {
        return Err(VaultError::UnsupportedVersion);
    }
    let nonce = match b64_decode(se.nonce_b64.as_str()) {
        None => {
            proof {
                assert forall|n0: Seq<u8>, content: Seq<char>|
                    n0.len() == 12 && bytes@ == #[trigger] sealed_entry_bytes(key@, n0, content)
                        implies false by {
                    assert(se.nonce_b64@ == b64_of(n0));
                }
            }
            return Err(VaultError::FormatError);
        },
        Some(n) => n,
    };
    proof {
        assert forall|n0: Seq<u8>, content: Seq<char>|
            n0.len() == 12 && bytes@ == #[trigger] sealed_entry_bytes(key@, n0, content)
                implies nonce@ == n0 by {
            assert(se.nonce_b64@ == b64_of(n0));
        }
    }
    if nonce.len() != 12 {
        return Err(VaultError::FormatError);
    }
    let ct = match b64_decode(se.ct_b64.as_str()) {
        None => {
            proof {
                assert forall|n0: Seq<u8>, content: Seq<char>|
                    n0.len() == 12 && bytes@ == #[trigger] sealed_entry_bytes(key@, n0, content)
                        implies false by {
                    assert(se.ct_b64@ == b64_of(
                        aes256_gcm_seal(key@, n0, encode_utf8(content)),
                    ));
                }
            }
            return Err(VaultError::FormatError);
        },
        Some(c) => c,
    };
    proof {
        assert forall|n0: Seq<u8>, content: Seq<char>|
            n0.len() == 12 && bytes@ == #[trigger] sealed_entry_bytes(key@, n0, content)
                implies ct@ == aes256_gcm_seal(key@, nonce@, encode_utf8(content)) by {
            assert(se.ct_b64@ == b64_of(aes256_gcm_seal(key@, n0, encode_utf8(content))));
            assert(ct@ == aes256_gcm_seal(key@, n0, encode_utf8(content)));
            assert(nonce@ == n0);
        }
    }
    let pt = match gcm_decrypt(key.as_slice(), nonce.as_slice(), ct.as_slice()) {
        None => {
            proof {
                assert forall|n0: Seq<u8>, content: Seq<char>|
                    n0.len() == 12 && bytes@ == #[trigger] sealed_entry_bytes(key@, n0, content)
                        implies false by {
                    assert(ct@ == aes256_gcm_seal(key@, nonce@, encode_utf8(content)));
                }
            }
            return Err(VaultError::DecryptionFailed);
        },
        Some(p) => p,
    };
    proof {
        assert forall|n0: Seq<u8>, content: Seq<char>|
            n0.len() == 12 && bytes@ == #[trigger] sealed_entry_bytes(key@, n0, content)
                implies pt@ == encode_utf8(content) && valid_utf8(pt@) by {
            assert(ct@ == aes256_gcm_seal(key@, nonce@, encode_utf8(content)));
            vstd::utf8::encode_utf8_valid_utf8(content);
        }
    }
    match vec_to_string(pt) {
        None => Err(VaultError::FormatError),
        Some(s) => {
            proof {
                assert forall|n0: Seq<u8>, content: Seq<char>|
                    n0.len() == 12 && bytes@ == #[trigger] sealed_entry_bytes(key@, n0, content)
                        implies s@ == content by {
                    assert(nonce@ == n0);
                    assert(ct@ == aes256_gcm_seal(key@, n0, encode_utf8(content)));
                    vstd::utf8::encode_utf8_valid_utf8(content);
                    vstd::utf8::encode_utf8_decode_utf8(content);
                }
            }
            Ok(s)
        },
    }
}

/// Whether every id in an index occurs once.
fn check_ids_unique(entries: &Vec<EntryInfo>) -> (r: bool)
    ensures
        r == ids_unique(infos_view(entries@)),
{
    let ev_len = entries.len();
    let mut a: usize = 0;
    let mut uq: bool = true;
    proof {
        assert(ids_unique(infos_view(entries@).take(0)));
    }
    while a < ev_len
        invariant
            a <= ev_len,
            ev_len == entries@.len(),
            uq == ids_unique(infos_view(entries@).take(a as int)),
        decreases ev_len - a,
    {
        let ghost evq = infos_view(entries@);
        let mut b: usize = 0;
        let mut row_ok: bool = true;
        while b < a
            invariant
                b <= a,
                a < ev_len,
                ev_len == entries@.len(),
                evq == infos_view(entries@),
                row_ok == (forall|t: int|
                    0 <= t < b ==> (#[trigger] evq[t]).id != evq[a as int].id),
            decreases a - b,
        {
            if entries[b].id == entries[a].id {
                assert(evq[b as int].id == evq[a as int].id);
                row_ok = false;
            } else {
                assert(evq[b as int].id != evq[a as int].id);
            }
            b = b + 1;
        }
        proof {
            if uq && row_ok {
                assert forall|x: int, y: int| 0 <= x < y < a + 1 implies (#[trigger] evq.take(
                    a + 1,
                )[x]).id != (#[trigger] evq.take(a + 1)[y]).id by {
                    assert(evq.take(a + 1)[x] == evq[x]);
                    assert(evq.take(a + 1)[y] == evq[y]);
                    if y < a {
                        assert(evq.take(a as int)[x] == evq[x]);
                        assert(evq.take(a as int)[y] == evq[y]);
                        assert((evq.take(a as int)[x]).id != (evq.take(a as int)[y]).id);
                    } else {
                        assert(evq[x].id != evq[a as int].id);
                    }
                }
                assert(ids_unique(evq.take(a + 1)));
            } else if !uq {
                assert(!ids_unique(evq.take(a as int)));
                let (x, y) = choose|x: int, y: int|
                    0 <= x < y < evq.take(a as int).len() && (#[trigger] evq.take(a as int)[
                    x]).id == (#[trigger] evq.take(a as int)[y]).id;
                assert((evq.take(a + 1)[x]).id == (evq.take(a + 1)[y]).id);
                assert(!ids_unique(evq.take(a + 1)));
            } else {
                let t = choose|t: int| 0 <= t < a && (#[trigger] evq[t]).id == evq[a as int].id;
                assert((evq.take(a + 1)[t]).id == (evq.take(a + 1)[a as int]).id);
                assert(!ids_unique(evq.take(a + 1)));
            }
        }
        uq = uq && row_ok;
        a = a + 1;
    }
    proof {
        assert(infos_view(entries@).take(ev_len as int) =~= infos_view(entries@));
    }
    uq
}

/// The in-memory result of opening a metadata envelope.
pub struct OpenedVault {
    pub salt: Vec<u8>,
    pub key: Vec<u8>,
    pub entries: Vec<EntryInfo>,
    pub last_saved: Option<u64>,
}

/// The mathematical shape of an opened metadata envelope.
pub ghost struct OpenedVaultV {
    pub salt: Seq<u8>,
    pub key: Seq<u8>,
    pub entries: Seq<EntryInfoV>,
    pub last_saved: Option<u64>,
}

impl View for OpenedVault {
    type V = OpenedVaultV;

    open spec fn view(&self) -> OpenedVaultV {
        OpenedVaultV {
            salt: self.salt@,
            key: self.key@,
            entries: infos_view(self.entries@),
            last_saved: self.last_saved,
        }
    }
}

/// What opening a metadata envelope yields, for every input.
pub open spec fn spec_open_vault(pass: Seq<char>, bytes: Seq<u8>) -> Result<
    OpenedVaultV,
    VaultError,
> {
    match spec_parse_stored_vault(bytes) {
        None => Err(VaultError::FormatError),
        Some(sv) => if sv.version != ENVELOPE_VERSION {
            Err(VaultError::UnsupportedVersion)
        } else {
            match b64_dec_of(sv.salt_b64) {
                None => Err(VaultError::FormatError),
                Some(salt) => if salt.len() != 16 {
                    Err(VaultError::FormatError)
                } else if !passphrase_ok(pass) {
                    Err(VaultError::KeyDerivationError)
                } else {
                    spec_open_vault_sealed(pass, sv, salt)
                },
            }
        },
    }
}

/// The nonce, ciphertext and payload steps of `spec_open_vault`.
pub open spec fn spec_open_vault_sealed(pass: Seq<char>, sv: StoredVaultV, salt: Seq<u8>) -> Result<
    OpenedVaultV,
    VaultError,
> {
    let key = argon2id_key_of(pass, salt);
    match b64_dec_of(sv.nonce_b64) {
        None => Err(VaultError::FormatError),
        Some(nonce) => if nonce.len() != 12 {
            Err(VaultError::FormatError)
        } else {
            match b64_dec_of(sv.ct_b64) {
                None => Err(VaultError::FormatError),
                Some(ct) => match aes256_gcm_open(key, nonce, ct) {
                    None => Err(VaultError::DecryptionFailed),
                    Some(pt) => match spec_parse_meta_payload(pt) {
                        None => Err(VaultError::FormatError),
                        Some((ver, es)) => if ver != ENVELOPE_VERSION {
                            Err(VaultError::UnsupportedVersion)
                        } else if !entries_wf(es) || !ids_unique(es) || (sv.updated_at
                            matches Some(ts) && ts > MAX_TIMESTAMP) {
                            Err(VaultError::FormatError)
                        } else {
                            Ok(
                                OpenedVaultV {
                                    salt,
                                    key,
                                    entries: es,
                                    last_saved: sv.updated_at,
                                },
                            )
                        },
                    },
                },
            }
        },
    }
}

/// The hypothesis of the metadata round trip: `bytes` is a metadata
/// envelope sealed for this passphrase.
pub open spec fn vault_seal_case(
    pass: Seq<char>,
    bytes: Seq<u8>,
    salt: Seq<u8>,
    nonce: Seq<u8>,
    es: Seq<EntryInfoV>,
    now: u64,
) -> bool {
    &&& salt.len() == 16
    &&& nonce.len() == 12
    &&& now <= MAX_TIMESTAMP
    &&& entries_wf(es)
    &&& ids_unique(es)
    &&& passphrase_ok(pass)
    &&& bytes == sealed_vault_bytes(argon2id_key_of(pass, salt), salt, nonce, es, now)
}

/// What the round trip promises when the hypothesis holds.
pub open spec fn vault_open_ok(
    r: Result<OpenedVault, VaultError>,
    pass: Seq<char>,
    salt: Seq<u8>,
    es: Seq<EntryInfoV>,
    now: u64,
) -> bool {
    &&& r is Ok
    &&& r->Ok_0@.salt == salt
    &&& r->Ok_0@.key == argon2id_key_of(pass, salt)
    &&& r->Ok_0@.entries == es
    &&& r->Ok_0@.last_saved == Some(now)
}

/// The parsed container of a sealed metadata envelope.
proof fn lemma_sealed_vault_parses(
    pass: Seq<char>,
    bytes: Seq<u8>,
    salt: Seq<u8>,
    nonce: Seq<u8>,
    es: Seq<EntryInfoV>,
    now: u64,
)
    requires
        vault_seal_case(pass, bytes, salt, nonce, es, now),
    ensures
        spec_parse_stored_vault(bytes) == Some(
            StoredVaultV {
                version: ENVELOPE_VERSION,
                salt_b64: b64_of(salt),
                nonce_b64: b64_of(nonce),
                ct_b64: b64_of(
                    aes256_gcm_seal(
                        argon2id_key_of(pass, salt),
                        nonce,
                        enc_meta_payload(ENVELOPE_VERSION, es),
                    ),
                ),
                updated_at: Some(now),
            },
        ),
{
    lemma_stored_vault_round_trip(
        ENVELOPE_VERSION,
        b64_of(salt),
        b64_of(nonce),
        b64_of(
            aes256_gcm_seal(
                argon2id_key_of(pass, salt),
                nonce,
                enc_meta_payload(ENVELOPE_VERSION, es),
            ),
        ),
        Some(now),
    );
}

/// Opens a metadata envelope: parses the container, decodes the salt,
/// derives the key, decrypts the index, and validates it.
///
/// Besides the exact contract, two clauses carry the security story: the
/// round trip — an envelope sealed for this passphrase opens back to the
/// sealed index, whatever nonce was drawn — and authenticity — whatever
/// opens did come from a seal under the derived key, so a successful
/// unlock can never hand back an index the key did not authenticate.
#[verifier::rlimit(100)]
pub fn open_vault(passphrase: &str, bytes: &Vec<u8>) -> (r: Result<OpenedVault, VaultError>)
    ensures
        match r {
            Ok(ov) => spec_open_vault(passphrase@, bytes@) == Ok::<OpenedVaultV, VaultError>(ov@),
            Err(e) => spec_open_vault(passphrase@, bytes@) == Err::<OpenedVaultV, VaultError>(e),
        },
        r matches Ok(ov) ==> ov.key@.len() == 32 && ov.salt@.len() == 16 && ov.key@
            == argon2id_key_of(passphrase@, ov.salt@) && entries_wf(infos_view(ov.entries@))
            && ids_unique(infos_view(ov.entries@)) && (ov.last_saved matches Some(ts) ==> ts
            <= MAX_TIMESTAMP),
        r matches Ok(ov) ==> exists|nonce: Seq<u8>, pt: Seq<u8>|
            {
                &&& (spec_parse_stored_vault(bytes@) matches Some(sv) && b64_dec_of(sv.nonce_b64)
                    == Some(nonce) && b64_dec_of(sv.ct_b64) == Some(
                    #[trigger] aes256_gcm_seal(ov.key@, nonce, pt),
                ))
                &&& nonce.len() == 12
                &&& spec_parse_meta_payload(pt) == Some(
                    (ENVELOPE_VERSION, infos_view(ov.entries@)),
                )
            },
        forall|salt: Seq<u8>, nonce: Seq<u8>, es: Seq<EntryInfoV>, now: u64|
            #[trigger] vault_seal_case(passphrase@, bytes@, salt, nonce, es, now) ==> vault_open_ok(
                r,
                passphrase@,
                salt,
                es,
                now,
            ),
{
    let sv = match parse_stored_vault(bytes) {
        None => {
            proof {
                assert forall|salt: Seq<u8>, nonce: Seq<u8>, es: Seq<EntryInfoV>, now: u64|
                    #[trigger] vault_seal_case(passphrase@, bytes@, salt, nonce, es, now)
                        implies false by {
                    lemma_sealed_vault_parses(passphrase@, bytes@, salt, nonce, es, now);
                }
            }
            return Err(VaultError::FormatError);
        },
        Some(sv) => sv,
    };
    let ghost sv0 = sv@;
    proof {
        assert forall|salt: Seq<u8>, nonce: Seq<u8>, es: Seq<EntryInfoV>, now: u64|
            #[trigger] vault_seal_case(passphrase@, bytes@, salt, nonce, es, now) implies sv0
            == (StoredVaultV {
            version: ENVELOPE_VERSION,
            salt_b64: b64_of(salt),
            nonce_b64: b64_of(nonce),
            ct_b64: b64_of(
                aes256_gcm_seal(
                    argon2id_key_of(passphrase@, salt),
                    nonce,
                    enc_meta_payload(ENVELOPE_VERSION, es),
                ),
            ),
            updated_at: Some(now),
        }) by {
            lemma_sealed_vault_parses(passphrase@, bytes@, salt, nonce, es, now);
        }
    }
    if sv.version != ENVELOPE_VERSION {
        return Err(VaultError::UnsupportedVersion);
    }
    let salt = match b64_decode(sv.salt_b64.as_str()) {
        None => {
            return Err(VaultError::FormatError);
        },
        Some(s) => s,
    };
    if salt.len() != 16 {
        return Err(VaultError::FormatError);
    }
    let key = match argon2id_derive(passphrase, salt.as_slice()) {
        None => {
            return Err(VaultError::KeyDerivationError);
        },
        Some(k) => k,
    };
    let nonce = match b64_decode(sv.nonce_b64.as_str()) {
        None => {
            return Err(VaultError::FormatError);
        },
        Some(n) => n,
    };
    if nonce.len() != 12 {
        return Err(VaultError::FormatError);
    }
    let ct = match b64_decode(sv.ct_b64.as_str()) {
        None => {
            return Err(VaultError::FormatError);
        },
        Some(c) => c,
    };
    let pt = match gcm_decrypt(key.as_slice(), nonce.as_slice(), ct.as_slice()) {
        None => {
            return Err(VaultError::DecryptionFailed);
        },
        Some(p) => p,
    };
    proof {
        assert forall|salt0: Seq<u8>, nonce0: Seq<u8>, es: Seq<EntryInfoV>, now: u64|
            #[trigger] vault_seal_case(passphrase@, bytes@, salt0, nonce0, es, now) implies salt@
            == salt0 && key@ == argon2id_key_of(passphrase@, salt0) && pt@ == enc_meta_payload(
            ENVELOPE_VERSION,
            es,
        ) by {
            let k0 = argon2id_key_of(passphrase@, salt0);
            let payload0 = enc_meta_payload(ENVELOPE_VERSION, es);
            assert(sv0.salt_b64 == b64_of(salt0));
            assert(sv0.nonce_b64 == b64_of(nonce0));
            assert(sv0.ct_b64 == b64_of(aes256_gcm_seal(k0, nonce0, payload0)));
            assert(salt@ == salt0);
            assert(nonce@ == nonce0);
            assert(ct@ == aes256_gcm_seal(k0, nonce0, payload0));
        }
    }
    let parsed = parse_meta_payload(&pt);
    let (ver, entries) = match parsed {
        None => {
            proof {
                assert forall|salt0: Seq<u8>, nonce0: Seq<u8>, es: Seq<EntryInfoV>, now: u64|
                    #[trigger] vault_seal_case(passphrase@, bytes@, salt0, nonce0, es, now)
                        implies false by {
                    lemma_meta_payload_round_trip(ENVELOPE_VERSION, es);
                }
            }
            return Err(VaultError::FormatError);
        },
        Some(x) => x,
    };
    proof {
        assert forall|salt0: Seq<u8>, nonce0: Seq<u8>, es: Seq<EntryInfoV>, now: u64|
            #[trigger] vault_seal_case(passphrase@, bytes@, salt0, nonce0, es, now) implies ver
            == ENVELOPE_VERSION && infos_view(entries@) == es by {
            lemma_meta_payload_round_trip(ENVELOPE_VERSION, es);
        }
    }
    if ver != ENVELOPE_VERSION {
        return Err(VaultError::UnsupportedVersion);
    }
    let n = entries.len();
    let mut i: usize = 0;
    let mut ok: bool = true;
    while i < n
        invariant
            i <= n,
            n == entries@.len(),
            ok == (forall|j: int| 0 <= j < i ==> entry_info_wf(#[trigger] infos_view(entries@)[j])),
        decreases n - i,
    {
        let e = &entries[i];
        if e.created_at > MAX_TIMESTAMP || e.updated_at > MAX_TIMESTAMP {
            ok = false;
        }
        assert(infos_view(entries@)[i as int] == entries@[i as int]@);
        i = i + 1;
    }
    let uq = check_ids_unique(&entries);
    let ts_ok = match sv.updated_at {
        Some(ts) => ts <= MAX_TIMESTAMP,
        None => true,
    };
    if !ok || !uq || !ts_ok {
        proof {
            assert forall|salt0: Seq<u8>, nonce0: Seq<u8>, es: Seq<EntryInfoV>, now: u64|
                #[trigger] vault_seal_case(passphrase@, bytes@, salt0, nonce0, es, now)
                    implies false by {
                assert(infos_view(entries@) == es);
                assert(entries_wf(es));
                assert(ids_unique(es));
                assert(sv0.updated_at == Some(now));
            }
        }
        return Err(VaultError::FormatError);
    }
    assert(entries_wf(infos_view(entries@)));
    assert(ids_unique(infos_view(entries@)));
    let ghost noncev = nonce@;
    let ghost ctv = ct@;
    let ghost ptv = pt@;
    let ov = OpenedVault { salt, key, entries, last_saved: sv.updated_at };
    proof {
        assert(ctv == aes256_gcm_seal(ov.key@, noncev, ptv));
        assert(spec_parse_meta_payload(ptv) == Some(
            (ENVELOPE_VERSION, infos_view(ov.entries@)),
        ));
        assert(b64_dec_of(sv0.nonce_b64) == Some(noncev));
        assert(b64_dec_of(sv0.ct_b64) == Some(ctv));
    }
    Ok(ov)
}

} // verus!
