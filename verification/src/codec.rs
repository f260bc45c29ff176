//! The three JSON envelope schemas: vault metadata container, metadata
//! payload, and entry container.
//!
//! Each schema has a spec-level encoding, an executable encoder proved to
//! produce it, a spec-level reference parser, an executable parser proved
//! equal to the reference, and a lemma that the reference parser accepts
//! exactly what the encoder writes.
//!
//! The canonical byte form the encoders write — fixed key order, no
//! whitespace, canonical numbers and escapes — is the engine's on-disk
//! format, and the parsers accept it alone: any other rendering of the
//! same values is rejected as malformed.

use vstd::prelude::*;
use vstd::string::StrSliceExecFns;
use vstd::utf8::decode_utf8;
use vstd::utf8::encode_utf8;
use vstd::utf8::valid_utf8;

use crate::json::append_escaped;
use crate::json::append_lit;
use crate::json::append_u64;
use crate::json::ascii_seq;
use crate::json::dec_rep;
use crate::json::esc_bytes;
use crate::json::match_at;
use crate::json::match_lit;
use crate::json::parse_jstring;
use crate::json::parse_u64;
use crate::json::spec_parse_jstring;
use crate::json::spec_parse_u64;

verus! {

/// The closed set of text-encryption algorithms.  The vault's tag must be a
/// member on every unlock; today the set has one member.
#[derive(Debug, Clone, Copy, PartialEq, Eq, Structural)]
pub enum TextEncryption {
    Aes256Gcm,
}

impl Default for TextEncryption {
    fn default() -> (r: Self)
        ensures
            r == TextEncryption::Aes256Gcm,
    {
        TextEncryption::Aes256Gcm
    }
}

/// One row of the entry index.
#[derive(Debug, Clone)]
pub struct EntryInfo {
    pub id: String,
    pub title: String,
    pub created_at: u64,
    pub updated_at: u64,
    pub folder: Option<String>,
}

/// The mathematical shape of an index row.
pub ghost struct EntryInfoV {
    pub id: Seq<char>,
    pub title: Seq<char>,
    pub created_at: u64,
    pub updated_at: u64,
    pub folder: Option<Seq<char>>,
}

impl View for EntryInfo {
    type V = EntryInfoV;

    open spec fn view(&self) -> EntryInfoV {
        EntryInfoV {
            id: self.id@,
            title: self.title@,
            created_at: self.created_at,
            updated_at: self.updated_at,
            folder: match self.folder {
                Some(f) => Some(f@),
                None => None,
            },
        }
    }
}

/// The views of a vector of index rows.
pub open spec fn infos_view(v: Seq<EntryInfo>) -> Seq<EntryInfoV> {
    Seq::new(v.len(), |i: int| v[i]@)
}

/// The body of a JSON string: the escaped UTF-8 bytes of its characters.
pub open spec fn enc_jstr(s: Seq<char>) -> Seq<u8> {
    esc_bytes(encode_utf8(s))
}

/// The encoding of one index row.
pub open spec fn enc_entry_info(e: EntryInfoV) -> Seq<u8> {
    ascii_seq("{\"id\":\""@) + (enc_jstr(e.id) + (ascii_seq("\""@) + (ascii_seq(",\"title\":\""@) + (
    enc_jstr(e.title) + (ascii_seq("\""@) + (ascii_seq(",\"created_at\":"@) + (dec_rep(
        e.created_at as nat,
    ) + (ascii_seq(",\"updated_at\":"@) + (dec_rep(e.updated_at as nat) + (ascii_seq(",\"folder\":"@)
        + ((match e.folder {
        None => ascii_seq("null"@),
        Some(f) => ascii_seq("\""@) + (enc_jstr(f) + ascii_seq("\""@)),
    }) + ascii_seq("}"@))))))))))))
}

/// The encoding of an index, rows joined by commas.
pub open spec fn enc_entry_list(es: Seq<EntryInfoV>) -> Seq<u8>
    decreases es.len(),
{
    if es.len() == 0 {
        Seq::empty()
    } else if es.len() == 1 {
        enc_entry_info(es[0])
    } else {
        enc_entry_info(es[0]) + (ascii_seq(","@) + enc_entry_list(es.drop_first()))
    }
}

/// The metadata payload: version, entry index and text-encryption tag.
/// This is what the vault's ciphertext seals.
pub open spec fn enc_meta_payload(version: u64, es: Seq<EntryInfoV>) -> Seq<u8> {
    ascii_seq("{\"version\":"@) + (dec_rep(version as nat) + (ascii_seq(",\"entries\":["@)
        + (enc_entry_list(es) + ascii_seq("],\"text_encryption\":\"aes256_gcm\"}"@))))
}

/// The metadata container written to `vault.json`: version, then salt,
/// nonce and ciphertext as base64 strings, then the save timestamp.
pub open spec fn enc_stored_vault(
    version: u64,
    salt_b64: Seq<char>,
    nonce_b64: Seq<char>,
    ct_b64: Seq<char>,
    updated_at: Option<u64>,
) -> Seq<u8> {
    ascii_seq("{\"version\":"@) + (dec_rep(version as nat) + (ascii_seq(",\"salt\":\""@) + (enc_jstr(
        salt_b64,
    ) + (ascii_seq("\""@) + (ascii_seq(",\"nonce\":\""@) + (enc_jstr(nonce_b64) + (ascii_seq("\""@)
        + (ascii_seq(",\"ciphertext\":\""@) + (enc_jstr(ct_b64) + (ascii_seq("\""@) + (ascii_seq(
        ",\"updated_at\":"@,
    ) + ((match updated_at {
        None => ascii_seq("null"@),
        Some(ts) => dec_rep(ts as nat),
    }) + ascii_seq("}"@)))))))))))))
}

/// The entry container written beside the index: version, then nonce and
/// ciphertext as base64 strings.
pub open spec fn enc_stored_entry(
    version: u64,
    nonce_b64: Seq<char>,
    ct_b64: Seq<char>,
) -> Seq<u8> {
    ascii_seq("{\"version\":"@) + (dec_rep(version as nat) + (ascii_seq(",\"nonce\":\""@) + (enc_jstr(
        nonce_b64,
    ) + (ascii_seq("\""@) + (ascii_seq(",\"ciphertext\":\""@) + (enc_jstr(ct_b64) + (ascii_seq("\""@)
        + ascii_seq("}"@))))))))
}

/// Appends a quoted, escaped JSON string.
fn append_quoted(out: &mut Vec<u8>, s: &str)
    ensures
        final(out)@ == old(out)@ + enc_jstr(s@) + ascii_seq("\""@),
{
    let sb = s.as_bytes_vec();
    append_escaped(out, &sb);
    proof {
        reveal_strlit("\"");
    }
    append_lit(out, "\"");
}

/// Encodes one index row.
#[verifier::rlimit(100)]
#[verifier::spinoff_prover]
fn append_entry_info(out: &mut Vec<u8>, e: &EntryInfo)
    ensures
        final(out)@ == old(out)@ + enc_entry_info(e@),
{
    proof {
        reveal_strlit("{\"id\":\"");
        reveal_strlit(",\"title\":\"");
        reveal_strlit(",\"created_at\":");
        reveal_strlit(",\"updated_at\":");
        reveal_strlit(",\"folder\":");
        reveal_strlit("null");
        reveal_strlit("\"");
        reveal_strlit("}");
    }
    append_lit(out, "{\"id\":\"");
    append_quoted(out, self_str(&e.id));
    append_lit(out, ",\"title\":\"");
    append_quoted(out, self_str(&e.title));
    append_lit(out, ",\"created_at\":");
    append_u64(out, e.created_at);
    append_lit(out, ",\"updated_at\":");
    append_u64(out, e.updated_at);
    append_lit(out, ",\"folder\":");
    match &e.folder {
        None => {
            append_lit(out, "null");
        },
        Some(f) => {
            append_lit(out, "\"");
            append_quoted(out, self_str(f));
        },
    }
    append_lit(out, "}");
    assert(final(out)@ =~= old(out)@ + enc_entry_info(e@));
}

/// A `&str` view of a `String`.
fn self_str(s: &String) -> (r: &str)
    ensures
        r@ == s@,
{
    s.as_str()
}

/// Encodes the whole metadata payload, with the current payload version.
pub fn encode_meta_payload(version: u64, entries: &Vec<EntryInfo>) -> (r: Vec<u8>)
    ensures
        r@ == enc_meta_payload(version, infos_view(entries@)),
{
    proof {
        reveal_strlit("{\"version\":");
        reveal_strlit(",\"entries\":[");
        reveal_strlit("],\"text_encryption\":\"aes256_gcm\"}");
        reveal_strlit(",");
    }
    let mut out: Vec<u8> = Vec::new();
    append_lit(&mut out, "{\"version\":");
    append_u64(&mut out, version);
    append_lit(&mut out, ",\"entries\":[");
    let ghost evs = infos_view(entries@);
    let n = entries.len();
    let mut i: usize = 0;
    while i < n
        invariant
            i <= n,
            n == entries@.len(),
            evs == infos_view(entries@),
            out@ == ascii_seq("{\"version\":"@) + dec_rep(version as nat) + ascii_seq(
                ",\"entries\":["@,
            ) + enc_entry_list(evs.take(i as int)) + (if 0 < i && i < n {
                ascii_seq(","@)
            } else {
                Seq::<u8>::empty()
            }),
        decreases n - i,
    {
        proof {
            reveal_strlit(",");
        }
        append_entry_info(&mut out, &entries[i]);
        proof {
            lemma_enc_entry_list_step(evs, i as int);
        }
        i = i + 1;
        if i < n {
            append_lit(&mut out, ",");
        }
        proof {
            assert(out@ =~= ascii_seq("{\"version\":"@) + dec_rep(version as nat) + ascii_seq(
                ",\"entries\":["@,
            ) + enc_entry_list(evs.take(i as int)) + (if i < n && i > 0 {
                ascii_seq(","@)
            } else {
                Seq::<u8>::empty()
            }));
        }
    }
    append_lit(&mut out, "],\"text_encryption\":\"aes256_gcm\"}");
    proof {
        assert(evs.take(n as int) =~= evs);
        assert(out@ =~= enc_meta_payload(version, evs));
    }
    out
}

/// Extending a comma-joined list by one row.
proof fn lemma_enc_entry_list_step(es: Seq<EntryInfoV>, i: int)
    requires
        0 <= i < es.len(),
    ensures
        i == 0 ==> enc_entry_list(es.take(1)) == enc_entry_info(es[0]),
        i > 0 ==> enc_entry_list(es.take(i + 1)) == enc_entry_list(es.take(i)) + ascii_seq(","@)
            + enc_entry_info(es[i]),
    decreases i,
{
    if i == 0 {
        assert(es.take(1).len() == 1);
        assert(es.take(1)[0] == es[0]);
    } else {
        lemma_enc_entry_list_step(es.drop_first(), i - 1);
        let a = es.take(i + 1);
        assert(a.len() >= 2);
        assert(a[0] == es[0]);
        assert(a.drop_first() =~= es.drop_first().take(i));
        assert(es.take(i).len() >= 1);
        assert(es.take(i)[0] == es[0]);
        assert(es.take(i).drop_first() =~= es.drop_first().take(i - 1));
        assert(es.drop_first()[i - 1] == es[i]);
        if i == 1 {
            assert(enc_entry_list(a) == enc_entry_info(es[0]) + ascii_seq(","@) + enc_entry_list(
                es.drop_first().take(1),
            ));
            assert(enc_entry_list(es.take(1)) == enc_entry_info(es[0]));
            assert(enc_entry_list(a) =~= enc_entry_list(es.take(1)) + ascii_seq(","@)
                + enc_entry_info(es[1]));
        } else {
            assert(enc_entry_list(a) == enc_entry_info(es[0]) + ascii_seq(","@) + enc_entry_list(
                a.drop_first(),
            ));
            assert(enc_entry_list(es.take(i)) == enc_entry_info(es[0]) + ascii_seq(","@)
                + enc_entry_list(es.drop_first().take(i - 1)));
            assert(enc_entry_list(a) =~= enc_entry_list(es.take(i)) + ascii_seq(","@)
                + enc_entry_info(es[i]));
        }
    }
}

/// Encodes the metadata container.
#[verifier::rlimit(100)]
#[verifier::spinoff_prover]
pub fn encode_stored_vault(
    version: u64,
    salt_b64: &str,
    nonce_b64: &str,
    ct_b64: &str,
    updated_at: Option<u64>,
) -> (r: Vec<u8>)
    ensures
        r@ == enc_stored_vault(version, salt_b64@, nonce_b64@, ct_b64@, updated_at),
{
    proof {
        reveal_strlit("{\"version\":");
        reveal_strlit(",\"salt\":\"");
        reveal_strlit(",\"nonce\":\"");
        reveal_strlit(",\"ciphertext\":\"");
        reveal_strlit(",\"updated_at\":");
        reveal_strlit("null");
        reveal_strlit("}");
    }
    let mut out: Vec<u8> = Vec::new();
    append_lit(&mut out, "{\"version\":");
    append_u64(&mut out, version);
    append_lit(&mut out, ",\"salt\":\"");
    append_quoted(&mut out, salt_b64);
    append_lit(&mut out, ",\"nonce\":\"");
    append_quoted(&mut out, nonce_b64);
    append_lit(&mut out, ",\"ciphertext\":\"");
    append_quoted(&mut out, ct_b64);
    append_lit(&mut out, ",\"updated_at\":");
    match updated_at {
        None => {
            append_lit(&mut out, "null");
        },
        Some(ts) => {
            append_u64(&mut out, ts);
        },
    }
    append_lit(&mut out, "}");
    assert(out@ =~= enc_stored_vault(version, salt_b64@, nonce_b64@, ct_b64@, updated_at));
    out
}

/// Encodes the entry container.
pub fn encode_stored_entry(version: u64, nonce_b64: &str, ct_b64: &str) -> (r: Vec<u8>)
    ensures
        r@ == enc_stored_entry(version, nonce_b64@, ct_b64@),
{
    proof {
        reveal_strlit("{\"version\":");
        reveal_strlit(",\"nonce\":\"");
        reveal_strlit(",\"ciphertext\":\"");
        reveal_strlit("}");
    }
    let mut out: Vec<u8> = Vec::new();
    append_lit(&mut out, "{\"version\":");
    append_u64(&mut out, version);
    append_lit(&mut out, ",\"nonce\":\"");
    append_quoted(&mut out, nonce_b64);
    append_lit(&mut out, ",\"ciphertext\":\"");
    append_quoted(&mut out, ct_b64);
    append_lit(&mut out, "}");
    assert(out@ =~= enc_stored_entry(version, nonce_b64@, ct_b64@));
    out
}

/// Relies on std's `String::from_utf8`: it succeeds exactly on valid UTF-8
/// and returns the string of those bytes.
#[verifier::external_body]
pub(crate) fn vec_to_string(v: Vec<u8>) -> (r: Option<String>)
    ensures
        match r {
            Some(s) => valid_utf8(v@) && s@ == decode_utf8(v@),
            None => !valid_utf8(v@),
        },
{
    String::from_utf8(v).ok()
}

/// The parsed metadata container.
pub struct StoredVault {
    pub version: u64,
    pub salt_b64: String,
    pub nonce_b64: String,
    pub ct_b64: String,
    pub updated_at: Option<u64>,
}

/// The mathematical shape of a parsed metadata container.
pub ghost struct StoredVaultV {
    pub version: u64,
    pub salt_b64: Seq<char>,
    pub nonce_b64: Seq<char>,
    pub ct_b64: Seq<char>,
    pub updated_at: Option<u64>,
}

impl View for StoredVault {
    type V = StoredVaultV;

    open spec fn view(&self) -> StoredVaultV {
        StoredVaultV {
            version: self.version,
            salt_b64: self.salt_b64@,
            nonce_b64: self.nonce_b64@,
            ct_b64: self.ct_b64@,
            updated_at: self.updated_at,
        }
    }
}

/// The parsed entry container.
pub struct StoredEntry {
    pub version: u64,
    pub nonce_b64: String,
    pub ct_b64: String,
}

/// The mathematical shape of a parsed entry container.
pub ghost struct StoredEntryV {
    pub version: u64,
    pub nonce_b64: Seq<char>,
    pub ct_b64: Seq<char>,
}

impl View for StoredEntry {
    type V = StoredEntryV;

    open spec fn view(&self) -> StoredEntryV {
        StoredEntryV {
            version: self.version,
            nonce_b64: self.nonce_b64@,
            ct_b64: self.ct_b64@,
        }
    }
}

/// Parses a string body at `pos` and decodes its bytes as UTF-8.
pub open spec fn spec_field_str(buf: Seq<u8>, pos: int) -> Option<(Seq<char>, int)> {
    match spec_parse_jstring(buf, pos) {
        Some((sb, p)) => if valid_utf8(sb) {
            Some((decode_utf8(sb), p))
        } else {
            None
        },
        None => None,
    }
}

/// The reference parser for one index row.
pub open spec fn spec_parse_entry(buf: Seq<u8>, pos: int) -> Option<(EntryInfoV, int)> {
    match match_at(buf, pos, ascii_seq("{\"id\":\""@)) {
        None => None,
        Some(p1) => match spec_field_str(buf, p1) {
            None => None,
            Some((id, p2)) => match match_at(buf, p2, ascii_seq(",\"title\":\""@)) {
                None => None,
                Some(p3) => match spec_field_str(buf, p3) {
                    None => None,
                    Some((title, p4)) => match match_at(buf, p4, ascii_seq(",\"created_at\":"@)) {
                        None => None,
                        Some(p5) => match spec_parse_u64(buf, p5) {
                            None => None,
                            Some((ca, p6)) => match match_at(
                                buf,
                                p6,
                                ascii_seq(",\"updated_at\":"@),
                            ) {
                                None => None,
                                Some(p7) => match spec_parse_u64(buf, p7) {
                                    None => None,
                                    Some((ua, p8)) => match match_at(
                                        buf,
                                        p8,
                                        ascii_seq(",\"folder\":"@),
                                    ) {
                                        None => None,
                                        Some(p9) => spec_parse_entry_tail(
                                            buf,
                                            p9,
                                            id,
                                            title,
                                            ca,
                                            ua,
                                        ),
                                    },
                                },
                            },
                        },
                    },
                },
            },
        },
    }
}

/// The folder field and closing brace of an index row.
pub open spec fn spec_parse_entry_tail(
    buf: Seq<u8>,
    pos: int,
    id: Seq<char>,
    title: Seq<char>,
    ca: u64,
    ua: u64,
) -> Option<(EntryInfoV, int)> {
    let folder_end = match match_at(buf, pos, ascii_seq("null"@)) {
        Some(p) => Some((None::<Seq<char>>, p)),
        None => match match_at(buf, pos, ascii_seq("\""@)) {
            Some(pq) => match spec_field_str(buf, pq) {
                Some((f, p)) => Some((Some(f), p)),
                None => None,
            },
            None => None,
        },
    };
    match folder_end {
        None => None,
        Some((folder, p10)) => match match_at(buf, p10, ascii_seq("}"@)) {
            None => None,
            Some(p11) => Some(
                (EntryInfoV { id, title, created_at: ca, updated_at: ua, folder }, p11),
            ),
        },
    }
}

/// The reference parser for one or more comma-joined rows; stops before the
/// first byte after a row that is not a comma.
pub open spec fn spec_entry_seq1(buf: Seq<u8>, pos: int) -> Option<(Seq<EntryInfoV>, int)>
    decreases buf.len() - pos,
{
    match spec_parse_entry(buf, pos) {
        None => None,
        Some((e, p)) => if pos <= p && p < buf.len() && buf[p] == 44 {
            match spec_entry_seq1(buf, p + 1) {
                Some((es, end)) => Some((seq![e] + es, end)),
                None => None,
            }
        } else {
            Some((seq![e], p))
        },
    }
}

/// The reference parser for a row list: empty before a `]`, else one or
/// more rows.  The closing bracket is left for the caller.
pub open spec fn spec_entry_seq(buf: Seq<u8>, pos: int) -> Option<(Seq<EntryInfoV>, int)> {
    if 0 <= pos && pos < buf.len() && buf[pos] == 93 {
        Some((Seq::empty(), pos))
    } else {
        spec_entry_seq1(buf, pos)
    }
}

/// The reference parser for the whole metadata payload.
pub open spec fn spec_parse_meta_payload(buf: Seq<u8>) -> Option<(u64, Seq<EntryInfoV>)> {
    match match_at(buf, 0, ascii_seq("{\"version\":"@)) {
        None => None,
        Some(p1) => match spec_parse_u64(buf, p1) {
            None => None,
            Some((ver, p2)) => match match_at(buf, p2, ascii_seq(",\"entries\":["@)) {
                None => None,
                Some(p3) => match spec_entry_seq(buf, p3) {
                    None => None,
                    Some((es, p4)) => match match_at(
                        buf,
                        p4,
                        ascii_seq("],\"text_encryption\":\"aes256_gcm\"}"@),
                    ) {
                        None => None,
                        Some(p5) => if p5 == buf.len() {
                            Some((ver, es))
                        } else {
                            None
                        },
                    },
                },
            },
        },
    }
}

/// The reference parser for the whole metadata container.
pub open spec fn spec_parse_stored_vault(buf: Seq<u8>) -> Option<StoredVaultV> {
    match match_at(buf, 0, ascii_seq("{\"version\":"@)) {
        None => None,
        Some(p1) => match spec_parse_u64(buf, p1) {
            None => None,
            Some((ver, p2)) => match match_at(buf, p2, ascii_seq(",\"salt\":\""@)) {
                None => None,
                Some(p3) => match spec_field_str(buf, p3) {
                    None => None,
                    Some((salt, p4)) => match match_at(buf, p4, ascii_seq(",\"nonce\":\""@)) {
                        None => None,
                        Some(p5) => match spec_field_str(buf, p5) {
                            None => None,
                            Some((nonce, p6)) => match match_at(
                                buf,
                                p6,
                                ascii_seq(",\"ciphertext\":\""@),
                            ) {
                                None => None,
                                Some(p7) => match spec_field_str(buf, p7) {
                                    None => None,
                                    Some((ct, p8)) => match match_at(
                                        buf,
                                        p8,
                                        ascii_seq(",\"updated_at\":"@),
                                    ) {
                                        None => None,
                                        Some(p9) => spec_parse_vault_tail(
                                            buf,
                                            p9,
                                            ver,
                                            salt,
                                            nonce,
                                            ct,
                                        ),
                                    },
                                },
                            },
                        },
                    },
                },
            },
        },
    }
}

/// The save-timestamp field and closing brace of the metadata container.
pub open spec fn spec_parse_vault_tail(
    buf: Seq<u8>,
    pos: int,
    ver: u64,
    salt: Seq<char>,
    nonce: Seq<char>,
    ct: Seq<char>,
) -> Option<StoredVaultV> {
    let ts_end = match match_at(buf, pos, ascii_seq("null"@)) {
        Some(p) => Some((None::<u64>, p)),
        None => match spec_parse_u64(buf, pos) {
            Some((ts, p)) => Some((Some(ts), p)),
            None => None,
        },
    };
    match ts_end {
        None => None,
        Some((ts, p10)) => match match_at(buf, p10, ascii_seq("}"@)) {
            None => None,
            Some(p11) => if p11 == buf.len() {
                Some(
                    StoredVaultV {
                        version: ver,
                        salt_b64: salt,
                        nonce_b64: nonce,
                        ct_b64: ct,
                        updated_at: ts,
                    },
                )
            } else {
                None
            },
        },
    }
}

/// The reference parser for the whole entry container.
pub open spec fn spec_parse_stored_entry(buf: Seq<u8>) -> Option<StoredEntryV> {
    match match_at(buf, 0, ascii_seq("{\"version\":"@)) {
        None => None,
        Some(p1) => match spec_parse_u64(buf, p1) {
            None => None,
            Some((ver, p2)) => match match_at(buf, p2, ascii_seq(",\"nonce\":\""@)) {
                None => None,
                Some(p3) => match spec_field_str(buf, p3) {
                    None => None,
                    Some((nonce, p4)) => match match_at(buf, p4, ascii_seq(",\"ciphertext\":\""@)) {
                        None => None,
                        Some(p5) => match spec_field_str(buf, p5) {
                            None => None,
                            Some((ct, p6)) => match match_at(buf, p6, ascii_seq("}"@)) {
                                None => None,
                                Some(p7) => if p7 == buf.len() {
                                    Some(StoredEntryV { version: ver, nonce_b64: nonce, ct_b64: ct })
                                } else {
                                    None
                                },
                            },
                        },
                    },
                },
            },
        },
    }
}

/// Parses a quoted-string field: the body and closing quote, decoded as UTF-8.
fn parse_field_str(buf: &Vec<u8>, pos: usize) -> (r: Option<(String, usize)>)
    ensures
        match r {
            Some(p) => spec_field_str(buf@, pos as int) == Some((p.0@, p.1 as int)) && pos < p.1
                <= buf@.len(),
            None => spec_field_str(buf@, pos as int) is None,
        },
{
    match parse_jstring(buf, pos) {
        None => None,
        Some((sb, p)) => {
            match vec_to_string(sb) {
                None => None,
                Some(s) => Some((s, p)),
            }
        },
    }
}

/// Parses one index row, as the reference parser does.
#[verifier::rlimit(100)]
pub fn parse_entry(buf: &Vec<u8>, pos: usize) -> (r: Option<(EntryInfo, usize)>)
    ensures
        match r {
            Some(p) => spec_parse_entry(buf@, pos as int) == Some((p.0@, p.1 as int)) && pos < p.1
                <= buf@.len(),
            None => spec_parse_entry(buf@, pos as int) is None,
        },
{
    proof {
        reveal_strlit("{\"id\":\"");
        reveal_strlit(",\"title\":\"");
        reveal_strlit(",\"created_at\":");
        reveal_strlit(",\"updated_at\":");
        reveal_strlit(",\"folder\":");
        reveal_strlit("null");
        reveal_strlit("\"");
        reveal_strlit("}");
    }
    let p1 = match match_lit(buf, pos, "{\"id\":\"") {
        None => {
            return None;
        },
        Some(p) => p,
    };
    let (id, p2) = match parse_field_str(buf, p1) {
        None => {
            return None;
        },
        Some(x) => x,
    };
    let p3 = match match_lit(buf, p2, ",\"title\":\"") {
        None => {
            return None;
        },
        Some(p) => p,
    };
    let (title, p4) = match parse_field_str(buf, p3) {
        None => {
            return None;
        },
        Some(x) => x,
    };
    let p5 = match match_lit(buf, p4, ",\"created_at\":") {
        None => {
            return None;
        },
        Some(p) => p,
    };
    let (ca, p6) = match parse_u64(buf, p5) {
        None => {
            return None;
        },
        Some(x) => x,
    };
    let p7 = match match_lit(buf, p6, ",\"updated_at\":") {
        None => {
            return None;
        },
        Some(p) => p,
    };
    let (ua, p8) = match parse_u64(buf, p7) {
        None => {
            return None;
        },
        Some(x) => x,
    };
    let p9 = match match_lit(buf, p8, ",\"folder\":") {
        None => {
            return None;
        },
        Some(p) => p,
    };
    let (folder, p10): (Option<String>, usize) = match match_lit(buf, p9, "null") {
        Some(p) => (None, p),
        None => {
            match match_lit(buf, p9, "\"") {
                None => {
                    return None;
                },
                Some(pq) => {
                    match parse_field_str(buf, pq) {
                        None => {
                            return None;
                        },
                        Some((f, p)) => (Some(f), p),
                    }
                },
            }
        },
    };
    let p11 = match match_lit(buf, p10, "}") {
        None => {
            return None;
        },
        Some(p) => p,
    };
    let e = EntryInfo { id, title, created_at: ca, updated_at: ua, folder };
    Some((e, p11))
}

/// Parses a row list, as the reference parser does.
pub fn parse_entry_list(buf: &Vec<u8>, pos: usize) -> (r: Option<(Vec<EntryInfo>, usize)>)
    ensures
        match r {
            Some(p) => spec_entry_seq(buf@, pos as int) == Some((infos_view(p.0@), p.1 as int))
                && pos <= p.1 <= buf@.len(),
            None => spec_entry_seq(buf@, pos as int) is None,
        },
{
    if pos < buf.len() && buf[pos] == 93 {
        let empty: Vec<EntryInfo> = Vec::new();
        assert(infos_view(empty@) =~= Seq::<EntryInfoV>::empty());
        return Some((empty, pos));
    }
    let mut acc: Vec<EntryInfo> = Vec::new();
    let mut cur: usize = pos;
    loop
        invariant
            pos <= cur <= buf@.len() || cur == pos,
            spec_entry_seq(buf@, pos as int) == (match spec_entry_seq1(buf@, cur as int) {
                Some((es, end)) => Some((infos_view(acc@) + es, end)),
                None => None::<(Seq<EntryInfoV>, int)>,
            }),
        decreases buf@.len() - cur + 1,
    {
        let (e, p) = match parse_entry(buf, cur) {
            None => {
                return None;
            },
            Some(x) => x,
        };
        let ghost old_acc = acc@;
        acc.push(e);
        proof {
            assert(infos_view(acc@) =~= infos_view(old_acc).push(e@));
        }
        if p < buf.len() && buf[p] == 44 {
            proof {
                match spec_entry_seq1(buf@, p + 1) {
                    Some((es, end)) => {
                        assert(spec_entry_seq1(buf@, cur as int) == Some((seq![e@] + es, end)));
                        assert(infos_view(old_acc) + (seq![e@] + es) =~= infos_view(acc@) + es);
                    },
                    None => {},
                }
            }
            cur = p + 1;
        } else {
            proof {
                assert(spec_entry_seq1(buf@, cur as int) == Some((seq![e@], p as int)));
                assert(infos_view(old_acc) + seq![e@] =~= infos_view(acc@));
            }
            return Some((acc, p));
        }
    }
}

/// Parses the whole metadata payload, as the reference parser does.
#[verifier::rlimit(80)]
pub fn parse_meta_payload(buf: &Vec<u8>) -> (r: Option<(u64, Vec<EntryInfo>)>)
    ensures
        match r {
            Some(p) => spec_parse_meta_payload(buf@) == Some((p.0, infos_view(p.1@))),
            None => spec_parse_meta_payload(buf@) is None,
        },
{
    proof {
        reveal_strlit("{\"version\":");
        reveal_strlit(",\"entries\":[");
        reveal_strlit("],\"text_encryption\":\"aes256_gcm\"}");
    }
    let p1 = match match_lit(buf, 0, "{\"version\":") {
        None => {
            return None;
        },
        Some(p) => p,
    };
    let (ver, p2) = match parse_u64(buf, p1) {
        None => {
            return None;
        },
        Some(x) => x,
    };
    let p3 = match match_lit(buf, p2, ",\"entries\":[") {
        None => {
            return None;
        },
        Some(p) => p,
    };
    let (es, p4) = match parse_entry_list(buf, p3) {
        None => {
            return None;
        },
        Some(x) => x,
    };
    let p5 = match match_lit(buf, p4, "],\"text_encryption\":\"aes256_gcm\"}") {
        None => {
            return None;
        },
        Some(p) => p,
    };
    if p5 != buf.len() {
        return None;
    }
    Some((ver, es))
}

/// Parses the whole metadata container, as the reference parser does.
pub fn parse_stored_vault(buf: &Vec<u8>) -> (r: Option<StoredVault>)
    ensures
        match r {
            Some(sv) => spec_parse_stored_vault(buf@) == Some(sv@),
            None => spec_parse_stored_vault(buf@) is None,
        },
{
    proof {
        reveal_strlit("{\"version\":");
        reveal_strlit(",\"salt\":\"");
        reveal_strlit(",\"nonce\":\"");
        reveal_strlit(",\"ciphertext\":\"");
        reveal_strlit(",\"updated_at\":");
        reveal_strlit("null");
        reveal_strlit("}");
    }
    let p1 = match match_lit(buf, 0, "{\"version\":") {
        None => {
            return None;
        },
        Some(p) => p,
    };
    let (ver, p2) = match parse_u64(buf, p1) {
        None => {
            return None;
        },
        Some(x) => x,
    };
    let p3 = match match_lit(buf, p2, ",\"salt\":\"") {
        None => {
            return None;
        },
        Some(p) => p,
    };
    let (salt, p4) = match parse_field_str(buf, p3) {
        None => {
            return None;
        },
        Some(x) => x,
    };
    let p5 = match match_lit(buf, p4, ",\"nonce\":\"") {
        None => {
            return None;
        },
        Some(p) => p,
    };
    let (nonce, p6) = match parse_field_str(buf, p5) {
        None => {
            return None;
        },
        Some(x) => x,
    };
    let p7 = match match_lit(buf, p6, ",\"ciphertext\":\"") {
        None => {
            return None;
        },
        Some(p) => p,
    };
    let (ct, p8) = match parse_field_str(buf, p7) {
        None => {
            return None;
        },
        Some(x) => x,
    };
    let p9 = match match_lit(buf, p8, ",\"updated_at\":") {
        None => {
            return None;
        },
        Some(p) => p,
    };
    let (ts, p10): (Option<u64>, usize) = match match_lit(buf, p9, "null") {
        Some(p) => (None, p),
        None => {
            match parse_u64(buf, p9) {
                None => {
                    return None;
                },
                Some((t, p)) => (Some(t), p),
            }
        },
    };
    let p11 = match match_lit(buf, p10, "}") {
        None => {
            return None;
        },
        Some(p) => p,
    };
    if p11 != buf.len() {
        return None;
    }
    Some(StoredVault { version: ver, salt_b64: salt, nonce_b64: nonce, ct_b64: ct, updated_at: ts })
}

/// Parses the whole entry container, as the reference parser does.
pub fn parse_stored_entry(buf: &Vec<u8>) -> (r: Option<StoredEntry>)
    ensures
        match r {
            Some(se) => spec_parse_stored_entry(buf@) == Some(se@),
            None => spec_parse_stored_entry(buf@) is None,
        },
{
    proof {
        reveal_strlit("{\"version\":");
        reveal_strlit(",\"nonce\":\"");
        reveal_strlit(",\"ciphertext\":\"");
        reveal_strlit("}");
    }
    let p1 = match match_lit(buf, 0, "{\"version\":") {
        None => {
            return None;
        },
        Some(p) => p,
    };
    let (ver, p2) = match parse_u64(buf, p1) {
        None => {
            return None;
        },
        Some(x) => x,
    };
    let p3 = match match_lit(buf, p2, ",\"nonce\":\"") {
        None => {
            return None;
        },
        Some(p) => p,
    };
    let (nonce, p4) = match parse_field_str(buf, p3) {
        None => {
            return None;
        },
        Some(x) => x,
    };
    let p5 = match match_lit(buf, p4, ",\"ciphertext\":\"") {
        None => {
            return None;
        },
        Some(p) => p,
    };
    let (ct, p6) = match parse_field_str(buf, p5) {
        None => {
            return None;
        },
        Some(x) => x,
    };
    let p7 = match match_lit(buf, p6, "}") {
        None => {
            return None;
        },
        Some(p) => p,
    };
    if p7 != buf.len() {
        return None;
    }
    Some(StoredEntry { version: ver, nonce_b64: nonce, ct_b64: ct })
}

/// A timestamp small enough for the canonical decimal codec.
pub open spec fn ts_in_range(n: u64) -> bool {
    n < 10_000_000_000_000_000_000
}

/// Both timestamps of a row are in codec range.
pub open spec fn entry_ts_ok(e: EntryInfoV) -> bool {
    ts_in_range(e.created_at) && ts_in_range(e.updated_at)
}

proof fn lemma_split_concat(buf: Seq<u8>, pos: int, a: Seq<u8>, b: Seq<u8>)
    requires
        0 <= pos,
        pos + a.len() + b.len() <= buf.len(),
        buf.subrange(pos, pos + a.len() + b.len()) == a + b,
    ensures
        buf.subrange(pos, pos + a.len()) == a,
        buf.subrange(pos + a.len(), pos + a.len() + b.len()) == b,
{
    let whole = buf.subrange(pos, pos + a.len() + b.len());
    assert(buf.subrange(pos, pos + a.len()) =~= a) by {
        assert forall|j: int| 0 <= j < a.len() implies buf.subrange(pos, pos + a.len())[j]
            == a[j] by {
            assert(buf[pos + j] == whole[j]);
            assert(whole[j] == (a + b)[j]);
        }
    }
    assert(buf.subrange(pos + a.len(), pos + a.len() + b.len()) =~= b) by {
        assert forall|j: int| 0 <= j < b.len() implies buf.subrange(
            pos + a.len(),
            pos + a.len() + b.len(),
        )[j] == b[j] by {
            assert(buf[pos + a.len() + j] == whole[a.len() + j]);
            assert(whole[a.len() + j] == (a + b)[a.len() + j]);
        }
    }
}

/// A literal followed by `rest` matches, leaving `rest` in place.
proof fn lemma_lit_at(buf: Seq<u8>, pos: int, lit: Seq<u8>, rest: Seq<u8>)
    requires
        0 <= pos,
        pos + lit.len() + rest.len() <= buf.len(),
        buf.subrange(pos, pos + lit.len() + rest.len()) == lit + rest,
    ensures
        match_at(buf, pos, lit) == Some(pos + lit.len()),
        buf.subrange(pos + lit.len(), pos + lit.len() + rest.len()) == rest,
{
    lemma_split_concat(buf, pos, lit, rest);
}

/// A quoted string followed by `rest` parses back, leaving `rest` in place.
proof fn lemma_field_str_at(buf: Seq<u8>, pos: int, s: Seq<char>, rest: Seq<u8>)
    requires
        0 <= pos,
        pos + enc_jstr(s).len() + 1 + rest.len() <= buf.len(),
        buf.subrange(pos, pos + enc_jstr(s).len() + 1 + rest.len()) == enc_jstr(s) + (ascii_seq(
            "\""@,
        ) + rest),
    ensures
        spec_field_str(buf, pos) == Some((s, pos + enc_jstr(s).len() + 1)),
        buf.subrange(pos + enc_jstr(s).len() + 1, pos + enc_jstr(s).len() + 1 + rest.len())
            == rest,
{
    reveal_strlit("\"");
    let q = ascii_seq("\""@);
    assert(q.len() == 1);
    assert(q[0] == 34);
    lemma_split_concat(buf, pos, enc_jstr(s), q + rest);
    lemma_split_concat(buf, pos + enc_jstr(s).len(), q, rest);
    assert(buf.subrange(pos + enc_jstr(s).len(), pos + enc_jstr(s).len() + 1)[0] == 34);
    assert(buf[pos + enc_jstr(s).len()] == 34);
    crate::json::lemma_parse_esc(buf, pos, encode_utf8(s));
    vstd::utf8::encode_utf8_valid_utf8(s);
    vstd::utf8::encode_utf8_decode_utf8(s);
}

/// A canonical number followed by `rest` (which starts with a non-digit)
/// parses back, leaving `rest` in place.
proof fn lemma_num_at(buf: Seq<u8>, pos: int, n: u64, rest: Seq<u8>)
    requires
        0 <= pos,
        ts_in_range(n),
        pos + dec_rep(n as nat).len() + rest.len() <= buf.len(),
        buf.subrange(pos, pos + dec_rep(n as nat).len() + rest.len()) == dec_rep(n as nat) + rest,
        rest.len() >= 1,
        !crate::json::is_digit(rest[0]),
    ensures
        spec_parse_u64(buf, pos) == Some((n, pos + dec_rep(n as nat).len())),
        buf.subrange(
            pos + dec_rep(n as nat).len(),
            pos + dec_rep(n as nat).len() + rest.len(),
        ) == rest,
{
    lemma_split_concat(buf, pos, dec_rep(n as nat), rest);
    assert(buf.subrange(
        pos + dec_rep(n as nat).len(),
        pos + dec_rep(n as nat).len() + rest.len(),
    )[0] == rest[0]);
    assert(buf[pos + dec_rep(n as nat).len()] == rest[0]);
    crate::json::lemma_parse_dec_rep(buf, pos, n);
}

/// The encoding of one index row parses back to exactly that row.
#[verifier::rlimit(100)]
proof fn lemma_parse_entry_info(buf: Seq<u8>, pos: int, e: EntryInfoV)
    requires
        0 <= pos,
        entry_ts_ok(e),
        pos + enc_entry_info(e).len() <= buf.len(),
        buf.subrange(pos, pos + enc_entry_info(e).len()) == enc_entry_info(e),
    ensures
        spec_parse_entry(buf, pos) == Some((e, pos + enc_entry_info(e).len())),
{
    reveal_strlit("{\"id\":\"");
    reveal_strlit(",\"title\":\"");
    reveal_strlit(",\"created_at\":");
    reveal_strlit(",\"updated_at\":");
    reveal_strlit(",\"folder\":");
    reveal_strlit("null");
    reveal_strlit("\"");
    reveal_strlit("}");
    let a1 = ascii_seq("{\"id\":\""@);
    let a2 = ascii_seq(",\"title\":\""@);
    let a3 = ascii_seq(",\"created_at\":"@);
    let a4 = ascii_seq(",\"updated_at\":"@);
    let a5 = ascii_seq(",\"folder\":"@);
    let a6 = ascii_seq("}"@);
    let q = ascii_seq("\""@);
    let d1 = dec_rep(e.created_at as nat);
    let d2 = dec_rep(e.updated_at as nat);
    let fpart = match e.folder {
        None => ascii_seq("null"@),
        Some(f) => q + (enc_jstr(f) + q),
    };
    let r1 = enc_jstr(e.id) + (q + (a2 + (enc_jstr(e.title) + (q + (a3 + (d1 + (a4 + (d2 + (a5 + (
    fpart + a6))))))))));
    assert(enc_entry_info(e) == a1 + r1);
    let p1 = pos + a1.len();
    lemma_lit_at(buf, pos, a1, r1);
    let r3 = a2 + (enc_jstr(e.title) + (q + (a3 + (d1 + (a4 + (d2 + (a5 + (fpart + a6))))))));
    lemma_field_str_at(buf, p1, e.id, r3);
    let p2 = p1 + enc_jstr(e.id).len() + 1;
    let r4 = enc_jstr(e.title) + (q + (a3 + (d1 + (a4 + (d2 + (a5 + (fpart + a6)))))));
    lemma_lit_at(buf, p2, a2, r4);
    let p3 = p2 + a2.len();
    let r5 = a3 + (d1 + (a4 + (d2 + (a5 + (fpart + a6)))));
    lemma_field_str_at(buf, p3, e.title, r5);
    let p4 = p3 + enc_jstr(e.title).len() + 1;
    let r6 = d1 + (a4 + (d2 + (a5 + (fpart + a6))));
    lemma_lit_at(buf, p4, a3, r6);
    let p5 = p4 + a3.len();
    let r7 = a4 + (d2 + (a5 + (fpart + a6)));
    assert(r7[0] == a4[0]);
    assert(a4[0] == 44);
    lemma_num_at(buf, p5, e.created_at, r7);
    let p6 = p5 + d1.len();
    let r8 = d2 + (a5 + (fpart + a6));
    lemma_lit_at(buf, p6, a4, r8);
    let p7 = p6 + a4.len();
    let r9 = a5 + (fpart + a6);
    assert(r9[0] == a5[0]);
    assert(a5[0] == 44);
    lemma_num_at(buf, p7, e.updated_at, r9);
    let p8 = p7 + d2.len();
    let r10 = fpart + a6;
    lemma_lit_at(buf, p8, a5, r10);
    let p9 = p8 + a5.len();
    let pend = pos + enc_entry_info(e).len();
    assert(p9 + fpart.len() + a6.len() == pend);
    match e.folder {
        None => {
            lemma_lit_at(buf, p9, ascii_seq("null"@), a6);
            let p10 = p9 + 4;
            lemma_lit_at(buf, p10, a6, Seq::<u8>::empty());
            assert(spec_parse_entry_tail(buf, p9, e.id, e.title, e.created_at, e.updated_at)
                == Some((e, pend)));
        },
        Some(f) => {
            assert(buf.subrange(p9, p9 + r10.len())[0] == r10[0]);
            assert(r10[0] == q[0]);
            assert(buf[p9] == 34);
            assert(match_at(buf, p9, ascii_seq("null"@)) is None) by {
                if p9 + 4 <= buf.len() {
                    assert(buf.subrange(p9, p9 + 4)[0] == buf[p9]);
                    assert(ascii_seq("null"@)[0] == 110);
                }
            }
            let r11 = (enc_jstr(f) + q) + a6;
            assert(r10 =~= q + r11);
            lemma_lit_at(buf, p9, q, r11);
            let pq = p9 + 1;
            let r12 = enc_jstr(f) + (q + a6);
            assert(r11 =~= r12);
            assert(buf.subrange(pq, pq + r11.len()) == r12);
            lemma_field_str_at(buf, pq, f, a6);
            let p10 = pq + enc_jstr(f).len() + 1;
            lemma_lit_at(buf, p10, a6, Seq::<u8>::empty());
            assert(spec_parse_entry_tail(buf, p9, e.id, e.title, e.created_at, e.updated_at)
                == Some((e, pend)));
        },
    }
}

/// The encoding of a non-empty row list, followed by a closing bracket,
/// parses back to exactly those rows.
proof fn lemma_parse_entry_seq1(buf: Seq<u8>, pos: int, es: Seq<EntryInfoV>)
    requires
        0 <= pos,
        es.len() >= 1,
        forall|i: int| 0 <= i < es.len() ==> entry_ts_ok(#[trigger] es[i]),
        pos + enc_entry_list(es).len() < buf.len(),
        buf.subrange(pos, pos + enc_entry_list(es).len()) == enc_entry_list(es),
        buf[pos + enc_entry_list(es).len()] == 93,
    ensures
        spec_entry_seq1(buf, pos) == Some((es, pos + enc_entry_list(es).len())),
    decreases es.len(),
{
    reveal_strlit(",");
    let whole = enc_entry_list(es);
    let pend = pos + whole.len();
    if es.len() == 1 {
        assert(whole == enc_entry_info(es[0]));
        lemma_parse_entry_info(buf, pos, es[0]);
        assert(!(pend < buf.len() && buf[pend] == 44));
        assert(seq![es[0]] =~= es);
    } else {
        let head = enc_entry_info(es[0]);
        let comma = ascii_seq(","@);
        let tail = enc_entry_list(es.drop_first());
        assert(whole == head + (comma + tail));
        lemma_split_concat(buf, pos, head, comma + tail);
        lemma_parse_entry_info(buf, pos, es[0]);
        let p = pos + head.len();
        lemma_split_concat(buf, p, comma, tail);
        assert(buf.subrange(p, p + 1)[0] == comma[0]);
        assert(buf[p] == 44);
        assert forall|i: int| 0 <= i < es.drop_first().len() implies entry_ts_ok(
            #[trigger] es.drop_first()[i],
        ) by {
            assert(es.drop_first()[i] == es[i + 1]);
        }
        lemma_parse_entry_seq1(buf, p + 1, es.drop_first());
        assert(seq![es[0]] + es.drop_first() =~= es);
    }
}

/// LAW — metadata codec round trip: the encoded metadata payload parses
/// back to exactly the version and rows that were encoded.
#[verifier::rlimit(100)]
#[verifier::spinoff_prover]
pub proof fn lemma_meta_payload_round_trip(version: u64, es: Seq<EntryInfoV>)
    requires
        ts_in_range(version),
        forall|i: int| 0 <= i < es.len() ==> entry_ts_ok(#[trigger] es[i]),
    ensures
        spec_parse_meta_payload(enc_meta_payload(version, es)) == Some((version, es)),
{
    reveal_strlit("{\"version\":");
    reveal_strlit(",\"entries\":[");
    reveal_strlit("],\"text_encryption\":\"aes256_gcm\"}");
    let buf = enc_meta_payload(version, es);
    let h = ascii_seq("{\"version\":"@);
    let a2 = ascii_seq(",\"entries\":["@);
    let close = ascii_seq("],\"text_encryption\":\"aes256_gcm\"}"@);
    let d = dec_rep(version as nat);
    let lst = enc_entry_list(es);
    let r1 = d + (a2 + (lst + close));
    assert(buf == h + r1);
    assert(buf.subrange(0, buf.len() as int) =~= buf);
    lemma_lit_at(buf, 0, h, r1);
    let p1 = h.len() as int;
    let r2 = a2 + (lst + close);
    assert(r2[0] == a2[0]);
    assert(a2[0] == 44);
    lemma_num_at(buf, p1, version, r2);
    let p2 = p1 + d.len();
    let r3 = lst + close;
    lemma_lit_at(buf, p2, a2, r3);
    let p3 = p2 + a2.len();
    lemma_split_concat(buf, p3, lst, close);
    let p4 = p3 + lst.len();
    assert(buf.subrange(p4, p4 + close.len())[0] == close[0]);
    assert(close[0] == 93);
    assert(buf[p4] == 93);
    if es.len() == 0 {
        assert(lst.len() == 0);
        assert(spec_entry_seq(buf, p3) == Some((Seq::<EntryInfoV>::empty(), p3)));
        assert(Seq::<EntryInfoV>::empty() =~= es);
    } else {
        lemma_parse_entry_seq1(buf, p3, es);
        assert(buf.subrange(p3, p3 + lst.len())[0] == lst[0]);
        assert(lst == enc_entry_info(es[0]) + (if es.len() == 1 {
            Seq::<u8>::empty()
        } else {
            ascii_seq(","@) + enc_entry_list(es.drop_first())
        }));
        assert(enc_entry_info(es[0]).len() > 0) by {
            reveal_strlit("{\"id\":\"");
            assert(enc_entry_info(es[0])[0] == ascii_seq("{\"id\":\""@)[0]);
        }
        assert(lst[0] == enc_entry_info(es[0])[0]) by {
            assert(enc_entry_info(es[0])[0] == (enc_entry_info(es[0]) + (if es.len() == 1 {
                Seq::<u8>::empty()
            } else {
                ascii_seq(","@) + enc_entry_list(es.drop_first())
            }))[0]);
        }
        assert(buf[p3] == enc_entry_info(es[0])[0]);
        assert(enc_entry_info(es[0])[0] == 123) by {
            reveal_strlit("{\"id\":\"");
            let a1 = ascii_seq("{\"id\":\""@);
            assert(enc_entry_info(es[0]) == a1 + (enc_entry_info(es[0]).subrange(
                a1.len() as int,
                enc_entry_info(es[0]).len() as int,
            ))) by {
                assert(enc_entry_info(es[0]).subrange(0, a1.len() as int) =~= a1) by {
                    assert forall|j: int| 0 <= j < a1.len() implies enc_entry_info(es[0]).subrange(
                        0,
                        a1.len() as int,
                    )[j] == a1[j] by {
                        assert(enc_entry_info(es[0])[j] == a1[j]);
                    }
                }
                assert(enc_entry_info(es[0]) =~= enc_entry_info(es[0]).subrange(
                    0,
                    a1.len() as int,
                ) + enc_entry_info(es[0]).subrange(
                    a1.len() as int,
                    enc_entry_info(es[0]).len() as int,
                ));
            }
            assert(a1[0] == 123);
        }
        assert(buf[p3] != 93);
        assert(spec_entry_seq(buf, p3) == spec_entry_seq1(buf, p3));
    }
    lemma_lit_at(buf, p4, close, Seq::<u8>::empty());
}

/// The fields of a sealed metadata container, as the reference parser
/// finds them, through the save-timestamp key.
#[verifier::rlimit(100)]
#[verifier::spinoff_prover]
proof fn lemma_sv_fields(
    version: u64,
    salt_b64: Seq<char>,
    nonce_b64: Seq<char>,
    ct_b64: Seq<char>,
    updated_at: Option<u64>,
)
    requires
        ts_in_range(version),
    ensures
        ({
            let buf = enc_stored_vault(version, salt_b64, nonce_b64, ct_b64, updated_at);
            let tspart = match updated_at {
                None => ascii_seq("null"@),
                Some(ts) => dec_rep(ts as nat),
            };
            let p1 = ascii_seq("{\"version\":"@).len() as int;
            let p2 = p1 + dec_rep(version as nat).len();
            let p3 = p2 + ascii_seq(",\"salt\":\""@).len();
            let p4 = p3 + enc_jstr(salt_b64).len() + 1;
            let p5 = p4 + ascii_seq(",\"nonce\":\""@).len();
            let p6 = p5 + enc_jstr(nonce_b64).len() + 1;
            let p7 = p6 + ascii_seq(",\"ciphertext\":\""@).len();
            let p8 = p7 + enc_jstr(ct_b64).len() + 1;
            let p9 = p8 + ascii_seq(",\"updated_at\":"@).len();
            &&& match_at(buf, 0, ascii_seq("{\"version\":"@)) == Some(p1)
            &&& spec_parse_u64(buf, p1) == Some((version, p2))
            &&& match_at(buf, p2, ascii_seq(",\"salt\":\""@)) == Some(p3)
            &&& spec_field_str(buf, p3) == Some((salt_b64, p4))
            &&& match_at(buf, p4, ascii_seq(",\"nonce\":\""@)) == Some(p5)
            &&& spec_field_str(buf, p5) == Some((nonce_b64, p6))
            &&& match_at(buf, p6, ascii_seq(",\"ciphertext\":\""@)) == Some(p7)
            &&& spec_field_str(buf, p7) == Some((ct_b64, p8))
            &&& match_at(buf, p8, ascii_seq(",\"updated_at\":"@)) == Some(p9)
            &&& buf.len() == p9 + tspart.len() + 1
            &&& buf.subrange(p9, buf.len() as int) == tspart + ascii_seq("}"@)
        }),
{
    reveal_strlit("{\"version\":");
    reveal_strlit(",\"salt\":\"");
    reveal_strlit(",\"nonce\":\"");
    reveal_strlit(",\"ciphertext\":\"");
    reveal_strlit(",\"updated_at\":");
    reveal_strlit("null");
    reveal_strlit("\"");
    reveal_strlit("}");
    let buf = enc_stored_vault(version, salt_b64, nonce_b64, ct_b64, updated_at);
    let h = ascii_seq("{\"version\":"@);
    let asalt = ascii_seq(",\"salt\":\""@);
    let anonce = ascii_seq(",\"nonce\":\""@);
    let act = ascii_seq(",\"ciphertext\":\""@);
    let ats = ascii_seq(",\"updated_at\":"@);
    let a6 = ascii_seq("}"@);
    let q = ascii_seq("\""@);
    let d = dec_rep(version as nat);
    let tspart = match updated_at {
        None => ascii_seq("null"@),
        Some(ts) => dec_rep(ts as nat),
    };
    let r1 = d + (asalt + (enc_jstr(salt_b64) + (q + (anonce + (enc_jstr(nonce_b64) + (q + (act + (
    enc_jstr(ct_b64) + (q + (ats + (tspart + a6)))))))))));
    assert(buf == h + r1);
    assert(buf.subrange(0, buf.len() as int) =~= buf);
    lemma_lit_at(buf, 0, h, r1);
    let p1 = h.len() as int;
    let r2 = asalt + (enc_jstr(salt_b64) + (q + (anonce + (enc_jstr(nonce_b64) + (q + (act + (
    enc_jstr(ct_b64) + (q + (ats + (tspart + a6))))))))));
    assert(r2[0] == asalt[0]);
    assert(asalt[0] == 44);
    lemma_num_at(buf, p1, version, r2);
    let p2 = p1 + d.len();
    let r3 = enc_jstr(salt_b64) + (q + (anonce + (enc_jstr(nonce_b64) + (q + (act + (enc_jstr(
        ct_b64,
    ) + (q + (ats + (tspart + a6)))))))));
    lemma_lit_at(buf, p2, asalt, r3);
    let p3 = p2 + asalt.len();
    let r4 = anonce + (enc_jstr(nonce_b64) + (q + (act + (enc_jstr(ct_b64) + (q + (ats + (tspart
        + a6)))))));
    lemma_field_str_at(buf, p3, salt_b64, r4);
    let p4 = p3 + enc_jstr(salt_b64).len() + 1;
    let r5 = enc_jstr(nonce_b64) + (q + (act + (enc_jstr(ct_b64) + (q + (ats + (tspart + a6))))));
    lemma_lit_at(buf, p4, anonce, r5);
    let p5 = p4 + anonce.len();
    let r6 = act + (enc_jstr(ct_b64) + (q + (ats + (tspart + a6))));
    lemma_field_str_at(buf, p5, nonce_b64, r6);
    let p6 = p5 + enc_jstr(nonce_b64).len() + 1;
    let r7 = enc_jstr(ct_b64) + (q + (ats + (tspart + a6)));
    lemma_lit_at(buf, p6, act, r7);
    let p7 = p6 + act.len();
    let r8 = ats + (tspart + a6);
    lemma_field_str_at(buf, p7, ct_b64, r8);
    let p8 = p7 + enc_jstr(ct_b64).len() + 1;
    let r9 = tspart + a6;
    lemma_lit_at(buf, p8, ats, r9);
}

/// LAW — metadata container codec round trip: the encoded container parses
/// back to exactly the fields that were encoded.
#[verifier::rlimit(100)]
pub proof fn lemma_stored_vault_round_trip(
    version: u64,
    salt_b64: Seq<char>,
    nonce_b64: Seq<char>,
    ct_b64: Seq<char>,
    updated_at: Option<u64>,
)
    requires
        ts_in_range(version),
        updated_at matches Some(ts) ==> ts_in_range(ts),
    ensures
        spec_parse_stored_vault(enc_stored_vault(version, salt_b64, nonce_b64, ct_b64, updated_at))
            == Some(
            StoredVaultV {
                version,
                salt_b64,
                nonce_b64,
                ct_b64,
                updated_at,
            },
        ),
{
    reveal_strlit(",\"updated_at\":");
    reveal_strlit("null");
    reveal_strlit("}");
    lemma_sv_fields(version, salt_b64, nonce_b64, ct_b64, updated_at);
    let buf = enc_stored_vault(version, salt_b64, nonce_b64, ct_b64, updated_at);
    let a6 = ascii_seq("}"@);
    let tspart = match updated_at {
        None => ascii_seq("null"@),
        Some(ts) => dec_rep(ts as nat),
    };
    let p1 = ascii_seq("{\"version\":"@).len() as int;
    let p2 = p1 + dec_rep(version as nat).len();
    let p3 = p2 + ascii_seq(",\"salt\":\""@).len();
    let p4 = p3 + enc_jstr(salt_b64).len() + 1;
    let p5 = p4 + ascii_seq(",\"nonce\":\""@).len();
    let p6 = p5 + enc_jstr(nonce_b64).len() + 1;
    let p7 = p6 + ascii_seq(",\"ciphertext\":\""@).len();
    let p8 = p7 + enc_jstr(ct_b64).len() + 1;
    let p9 = p8 + ascii_seq(",\"updated_at\":"@).len();
    lemma_split_concat(buf, p9, tspart, a6);
    let p10 = p9 + tspart.len();
    match updated_at {
        None => {
            lemma_lit_at(buf, p9, ascii_seq("null"@), a6);
        },
        Some(ts) => {
            crate::json::lemma_dec_rep_first_digit(ts as nat);
            assert(buf.subrange(p9, p9 + tspart.len())[0] == tspart[0]);
            assert(buf[p9] == tspart[0]);
            assert(match_at(buf, p9, ascii_seq("null"@)) is None) by {
                if p9 + 4 <= buf.len() {
                    assert(buf.subrange(p9, p9 + 4)[0] == buf[p9]);
                    assert(ascii_seq("null"@)[0] == 110);
                    assert(crate::json::is_digit(buf[p9]));
                }
            }
            assert(a6[0] == 125);
            assert(!crate::json::is_digit(a6[0]));
            lemma_num_at(buf, p9, ts, a6);
        },
    }
    lemma_lit_at(buf, p10, a6, Seq::<u8>::empty());
}

/// LAW — entry container codec round trip: the encoded container parses
/// back to exactly the fields that were encoded.
#[verifier::rlimit(100)]
pub proof fn lemma_stored_entry_round_trip(version: u64, nonce_b64: Seq<char>, ct_b64: Seq<char>)
    requires
        ts_in_range(version),
    ensures
        spec_parse_stored_entry(enc_stored_entry(version, nonce_b64, ct_b64)) == Some(
            StoredEntryV { version, nonce_b64, ct_b64 },
        ),
{
    reveal_strlit("{\"version\":");
    reveal_strlit(",\"nonce\":\"");
    reveal_strlit(",\"ciphertext\":\"");
    reveal_strlit("\"");
    reveal_strlit("}");
    let buf = enc_stored_entry(version, nonce_b64, ct_b64);
    let h = ascii_seq("{\"version\":"@);
    let anonce = ascii_seq(",\"nonce\":\""@);
    let act = ascii_seq(",\"ciphertext\":\""@);
    let a6 = ascii_seq("}"@);
    let q = ascii_seq("\""@);
    let d = dec_rep(version as nat);
    let r1 = d + (anonce + (enc_jstr(nonce_b64) + (q + (act + (enc_jstr(ct_b64) + (q + a6))))));
    assert(buf == h + r1);
    assert(buf.subrange(0, buf.len() as int) =~= buf);
    lemma_lit_at(buf, 0, h, r1);
    let p1 = h.len() as int;
    let r2 = anonce + (enc_jstr(nonce_b64) + (q + (act + (enc_jstr(ct_b64) + (q + a6)))));
    assert(r2[0] == anonce[0]);
    assert(anonce[0] == 44);
    lemma_num_at(buf, p1, version, r2);
    let p2 = p1 + d.len();
    let r3 = enc_jstr(nonce_b64) + (q + (act + (enc_jstr(ct_b64) + (q + a6))));
    lemma_lit_at(buf, p2, anonce, r3);
    let p3 = p2 + anonce.len();
    let r4 = act + (enc_jstr(ct_b64) + (q + a6));
    lemma_field_str_at(buf, p3, nonce_b64, r4);
    let p4 = p3 + enc_jstr(nonce_b64).len() + 1;
    let r5 = enc_jstr(ct_b64) + (q + a6);
    lemma_lit_at(buf, p4, act, r5);
    let p5 = p4 + act.len();
    lemma_field_str_at(buf, p5, ct_b64, a6);
    let p6 = p5 + enc_jstr(ct_b64).len() + 1;
    lemma_lit_at(buf, p6, a6, Seq::<u8>::empty());
}

/// A conservative size measure of one row: never smaller than its
/// encoding, whatever the timestamps.
pub open spec fn row_measure(e: EntryInfoV) -> nat {
    200 + 6 * (encode_utf8(e.id).len() + encode_utf8(e.title).len() + (match e.folder {
        Some(f) => encode_utf8(f).len(),
        None => 0nat,
    }))
}

/// The measure of a whole index: the sum of its rows' measures.
pub open spec fn index_measure(es: Seq<EntryInfoV>) -> nat
    decreases es.len(),
{
    if es.len() == 0 {
        0
    } else {
        row_measure(es[0]) + index_measure(es.drop_first())
    }
}

pub proof fn lemma_index_measure_concat(a: Seq<EntryInfoV>, b: Seq<EntryInfoV>)
    ensures
        index_measure(a + b) == index_measure(a) + index_measure(b),
    decreases a.len(),
{
    if a.len() == 0 {
        assert(a + b =~= b);
    } else {
        assert((a + b).drop_first() =~= a.drop_first() + b);
        lemma_index_measure_concat(a.drop_first(), b);
        assert((a + b)[0] == a[0]);
    }
}

pub proof fn lemma_index_measure_singleton(e: EntryInfoV)
    ensures
        index_measure(seq![e]) == row_measure(e),
{
    reveal_with_fuel(index_measure, 3);
    assert(seq![e].len() == 1);
    assert(seq![e][0] == e);
    assert(seq![e].drop_first() =~= Seq::<EntryInfoV>::empty());
    assert(index_measure(Seq::<EntryInfoV>::empty()) == 0);
}

/// Appending a row adds exactly its measure.
pub proof fn lemma_index_measure_push(es: Seq<EntryInfoV>, e: EntryInfoV)
    ensures
        index_measure(es.push(e)) == index_measure(es) + row_measure(e),
{
    assert(es + seq![e] =~= es.push(e));
    lemma_index_measure_concat(es, seq![e]);
    lemma_index_measure_singleton(e);
}

/// Replacing a row grows the measure by at most the new row's.
pub proof fn lemma_index_measure_update(es: Seq<EntryInfoV>, k: int, e: EntryInfoV)
    requires
        0 <= k < es.len(),
    ensures
        index_measure(es.update(k, e)) <= index_measure(es) + row_measure(e),
{
    let pre = es.subrange(0, k);
    let post = es.subrange(k + 1, es.len() as int);
    assert(es =~= pre + seq![es[k]] + post);
    assert(es.update(k, e) =~= pre + seq![e] + post);
    lemma_index_measure_concat(pre + seq![es[k]], post);
    lemma_index_measure_concat(pre, seq![es[k]]);
    lemma_index_measure_singleton(es[k]);
    lemma_index_measure_concat(pre + seq![e], post);
    lemma_index_measure_concat(pre, seq![e]);
    lemma_index_measure_singleton(e);
}

/// One row's encoding stays under its measure, with a byte to spare for
/// the list comma.
proof fn lemma_enc_entry_info_measure(e: EntryInfoV)
    ensures
        enc_entry_info(e).len() + 1 <= row_measure(e),
{
    reveal_strlit("{\"id\":\"");
    reveal_strlit(",\"title\":\"");
    reveal_strlit(",\"created_at\":");
    reveal_strlit(",\"updated_at\":");
    reveal_strlit(",\"folder\":");
    reveal_strlit("null");
    reveal_strlit("\"");
    reveal_strlit("}");
    crate::json::lemma_esc_bytes_len(encode_utf8(e.id));
    crate::json::lemma_esc_bytes_len(encode_utf8(e.title));
    crate::json::lemma_dec_rep_len_u64(e.created_at);
    crate::json::lemma_dec_rep_len_u64(e.updated_at);
    match e.folder {
        Some(f) => {
            crate::json::lemma_esc_bytes_len(encode_utf8(f));
        },
        None => {},
    }
}

/// A whole list's encoding stays under the index measure.
proof fn lemma_enc_entry_list_measure(es: Seq<EntryInfoV>)
    ensures
        enc_entry_list(es).len() <= index_measure(es),
    decreases es.len(),
{
    if es.len() == 0 {
    } else if es.len() == 1 {
        lemma_enc_entry_info_measure(es[0]);
        reveal_with_fuel(index_measure, 2);
        assert(es.drop_first() =~= Seq::<EntryInfoV>::empty());
    } else {
        lemma_enc_entry_info_measure(es[0]);
        lemma_enc_entry_list_measure(es.drop_first());
        reveal_strlit(",");
    }
}

/// The whole payload's encoding stays under the index measure plus a
/// fixed header allowance.
pub proof fn lemma_enc_meta_payload_measure(version: u64, es: Seq<EntryInfoV>)
    ensures
        enc_meta_payload(version, es).len() <= 100 + index_measure(es),
{
    reveal_strlit("{\"version\":");
    reveal_strlit(",\"entries\":[");
    reveal_strlit("],\"text_encryption\":\"aes256_gcm\"}");
    crate::json::lemma_dec_rep_len_u64(version);
    lemma_enc_entry_list_measure(es);
}

} // verus!
