//! The attachment cipher and the attachment paths.
//!
//! An encrypted attachment is `VAULTIMG || :AES256CTR: || IV || ciphertext`:
//! a fixed magic prefix, an algorithm marker, a 16-byte IV, and the data
//! under AES-256-CTR.  A buffer without the magic prefix is a legacy
//! plaintext file and is returned unchanged.  Attachments are bucketed
//! under `attachments/<year>/<month>/` with a fresh UUID name.

use vstd::prelude::*;
use vstd::slice::slice_subrange;
use vstd::slice::slice_to_vec;
use vstd::string::StrSliceExecFns;
use vstd::string::StringSliceAdditionalSpecFns;

use crate::crypto::aes256_ctr_xor;
use crate::crypto::ctr_apply;
use crate::crypto::random_bytes;
use crate::errors::VaultError;
use crate::json::append_lit;
use crate::json::append_u64;
use crate::json::ascii_seq;
use crate::json::dec_rep;
use crate::json::match_lit;
use crate::json::match_at;
use crate::codec::vec_to_string;

verus! {

/// The magic prefix of an encrypted attachment.
pub open spec fn magic_bytes() -> Seq<u8> {
    ascii_seq("VAULTIMG"@)
}

/// The marker of the AES-256-CTR attachment algorithm.
pub open spec fn marker_bytes() -> Seq<u8> {
    ascii_seq(":AES256CTR:"@)
}

/// The bytes of an attachment encrypted under `key` with `iv`.
pub open spec fn attachment_bytes(key: Seq<u8>, iv: Seq<u8>, data: Seq<u8>) -> Seq<u8> {
    magic_bytes() + (marker_bytes() + (iv + aes256_ctr_xor(key, iv, data)))
}

/// The closed set of attachment-cipher algorithms, carried in the header
/// by a marker string; today the set has one member.
#[derive(Debug, Clone, Copy, PartialEq, Eq, Structural)]
pub enum ImageEncryption {
    Aes256Ctr,
}

impl ImageEncryption {
    /// This algorithm's marker string.
    pub fn marker(self) -> (r: Vec<u8>)
        ensures
            r@ == marker_bytes(),
    {
        proof {
            reveal_strlit(":AES256CTR:");
        }
        let mut out: Vec<u8> = Vec::new();
        append_lit(&mut out, ":AES256CTR:");
        assert(out@ =~= marker_bytes());
        out
    }

    /// Recognizes the algorithm marker at the head of a buffer, and how
    /// many bytes it takes.
    pub fn detect(bytes: &Vec<u8>) -> (r: Option<(ImageEncryption, usize)>)
        ensures
            match r {
                Some(p) => p.0 == ImageEncryption::Aes256Ctr && p.1 == marker_bytes().len()
                    && crate::json::match_at(bytes@, 0, marker_bytes()) == Some(p.1 as int),
                None => crate::json::match_at(bytes@, 0, marker_bytes()) is None,
            },
    {
        proof {
            reveal_strlit(":AES256CTR:");
        }
        match match_lit(bytes, 0, ":AES256CTR:") {
            Some(end) => Some((ImageEncryption::Aes256Ctr, end)),
            None => None,
        }
    }
}

/// What decrypting an attachment yields, for every input buffer.
///
/// A buffer shorter than magic plus IV is truncated.  One without the
/// magic prefix is legacy plaintext, returned unchanged.  Otherwise the
/// marker (or, for buffers older than markers, nothing) is skipped, the
/// next 16 bytes are the IV, and the rest is deciphered.
pub open spec fn spec_decrypt_attachment(key: Seq<u8>, bytes: Seq<u8>) -> Result<
    Seq<u8>,
    VaultError,
> {
    if bytes.len() < 24 {
        Err(VaultError::TruncatedAttachment)
    } else if bytes.subrange(0, 8) != magic_bytes() {
        Ok(bytes)
    } else {
        let off: int = if bytes.len() >= 19 && bytes.subrange(8, 19) == marker_bytes() {
            19
        } else {
            8
        };
        if bytes.len() < off + 16 {
            Err(VaultError::TruncatedAttachment)
        } else {
            Ok(
                aes256_ctr_xor(
                    key,
                    bytes.subrange(off, off + 16),
                    bytes.subrange(off + 16, bytes.len() as int),
                ),
            )
        }
    }
}

/// Encrypts an attachment with a caller-supplied IV.
pub fn encrypt_image_data_with(key: &Vec<u8>, iv: &Vec<u8>, data: Vec<u8>) -> (r: Vec<u8>)
    requires
        key@.len() == 32,
        iv@.len() == 16,
    ensures
        r@ == attachment_bytes(key@, iv@, data@),
        r@.len() == 35 + data@.len(),
{
    proof {
        reveal_strlit("VAULTIMG");
        reveal_strlit(":AES256CTR:");
    }
    let mut out: Vec<u8> = Vec::new();
    append_lit(&mut out, "VAULTIMG");
    let marker = ImageEncryption::Aes256Ctr.marker();
    out.extend_from_slice(marker.as_slice());
    out.extend_from_slice(iv.as_slice());
    let enc = ctr_apply(key.as_slice(), iv.as_slice(), data);
    out.extend_from_slice(enc.as_slice());
    assert(out@ =~= magic_bytes() + (marker_bytes() + (iv@ + enc@)));
    out
}

/// Encrypts an attachment with a fresh random IV.
pub fn encrypt_image_data(key: &Vec<u8>, data: Vec<u8>) -> (r: Vec<u8>)
    requires
        key@.len() == 32,
    ensures
        exists|iv: Seq<u8>|
            iv.len() == 16 && r@ == #[trigger] attachment_bytes(key@, iv, data@),
        r@.len() == 35 + data@.len(),
{
    let iv = random_bytes(16);
    let r = encrypt_image_data_with(key, &iv, data);
    proof {
        assert(r@ == attachment_bytes(key@, iv@, data@));
    }
    r
}

/// Decrypts an attachment, passing legacy plaintext through unchanged.
///
/// Besides the exact contract, the second clause is the round trip — an
/// attachment encrypted under this key deciphers back to its data — and
/// the third is the legacy pass-through.
pub fn decrypt_image_data(key: &Vec<u8>, bytes: &Vec<u8>) -> (r: Result<Vec<u8>, VaultError>)
    requires
        key@.len() == 32,
    ensures
        match r {
            Ok(pt) => spec_decrypt_attachment(key@, bytes@) == Ok::<Seq<u8>, VaultError>(pt@),
            Err(e) => spec_decrypt_attachment(key@, bytes@) == Err::<Seq<u8>, VaultError>(e),
        },
        forall|iv: Seq<u8>, data: Seq<u8>|
            iv.len() == 16 && bytes@ == #[trigger] attachment_bytes(key@, iv, data) ==> r is Ok
                && r->Ok_0@ == data,
        bytes@.len() >= 24 && bytes@.subrange(0, 8) != magic_bytes() ==> r is Ok && r->Ok_0@
            == bytes@,
{
    proof {
        reveal_strlit("VAULTIMG");
        reveal_strlit(":AES256CTR:");
    }
    if bytes.len() < 24 {
        proof {
            assert forall|iv: Seq<u8>, data: Seq<u8>|
                iv.len() == 16 && bytes@ == #[trigger] attachment_bytes(key@, iv, data)
                    implies false by {
                assert(bytes@.len() >= 8 + 11 + 16);
            }
        }
        return Err(VaultError::TruncatedAttachment);
    }
    let _magic_end = match match_lit(bytes, 0, "VAULTIMG") {
        None => {
            proof {
                assert forall|iv: Seq<u8>, data: Seq<u8>|
                    iv.len() == 16 && bytes@ == #[trigger] attachment_bytes(key@, iv, data)
                        implies false by {
                    assert(bytes@.subrange(0, 8) =~= magic_bytes());
                }
                assert(match_at(bytes@, 0, magic_bytes()) is None);
                assert(bytes@.subrange(0, 8) != magic_bytes());
            }
            return Ok(slice_to_vec(bytes.as_slice()));
        },
        Some(p) => p,
    };
    proof {
        assert(bytes@.subrange(0, 8) == magic_bytes());
    }
    let tail = slice_to_vec(slice_subrange(bytes.as_slice(), 8, bytes.len()));
    proof {
        assert(tail@ == bytes@.subrange(8, bytes@.len() as int));
        if bytes@.len() >= 19 {
            assert(tail@.subrange(0, 11) =~= bytes@.subrange(8, 19));
        }
    }
    let off: usize = match ImageEncryption::detect(&tail) {
        None => {
            proof {
                assert forall|iv: Seq<u8>, data: Seq<u8>|
                    iv.len() == 16 && bytes@ == #[trigger] attachment_bytes(key@, iv, data)
                        implies false by {
                    assert(bytes@.subrange(8, 19) =~= marker_bytes());
                    assert(tail@.subrange(0, 11) == marker_bytes());
                }
                assert(!(bytes@.len() >= 19 && bytes@.subrange(8, 19) == marker_bytes()));
            }
            8
        },
        Some((_, mlen)) => {
            proof {
                assert(tail@.subrange(0, 11) == marker_bytes());
                assert(bytes@.len() >= 19);
                assert(bytes@.subrange(8, 19) == marker_bytes());
            }
            8 + mlen
        },
    };
    if bytes.len() - off < 16 {
        return Err(VaultError::TruncatedAttachment);
    }
    let iv = slice_to_vec(slice_subrange(bytes.as_slice(), off, off + 16));
    let ct = slice_to_vec(slice_subrange(bytes.as_slice(), off + 16, bytes.len()));
    let pt = ctr_apply(key.as_slice(), iv.as_slice(), ct);
    proof {
        assert forall|iv0: Seq<u8>, data: Seq<u8>|
            iv0.len() == 16 && bytes@ == #[trigger] attachment_bytes(key@, iv0, data) implies pt@
            == data by {
            let enc = aes256_ctr_xor(key@, iv0, data);
            assert(off == 19) by {
                assert(bytes@.subrange(8, 19) =~= marker_bytes());
            }
            assert(iv@ =~= iv0);
            assert(ct@ =~= enc);
            assert(ct@ == aes256_ctr_xor(key@, iv@, data));
        }
    }
    Ok(pt)
}

/// An acceptable extension byte: an ASCII letter or digit.
pub open spec fn is_ext_byte(b: u8) -> bool {
    (48 <= b <= 57) || (65 <= b <= 90) || (97 <= b <= 122)
}

/// Lowercases the ASCII letters of a byte sequence.
pub open spec fn ascii_lower(s: Seq<u8>) -> Seq<u8> {
    Seq::new(s.len(), |i: int| if 65 <= s[i] <= 90 { (s[i] + 32) as u8 } else { s[i] })
}

/// The position after the last `/`, `\` or up to which no `.` follows,
/// scanning backwards from `i`: the last `.` of the final path component.
pub open spec fn dot_pos(s: Seq<u8>, i: int) -> Option<int>
    decreases i,
{
    if i <= 0 {
        None
    } else if s[i - 1] == 47 || s[i - 1] == 92 {
        None
    } else if s[i - 1] == 46 {
        Some(i - 1)
    } else {
        dot_pos(s, i - 1)
    }
}

/// The lowercased extension a file name offers, if its final component has
/// one that is plain ASCII letters and digits.
pub open spec fn spec_name_ext(s: Seq<u8>) -> Option<Seq<u8>> {
    match dot_pos(s, s.len() as int) {
        None => None,
        Some(j) => if j + 1 < s.len() && j > 0 && s[j - 1] != 47 && s[j - 1] != 92 && (forall|
            k: int,
        |
            j < k < s.len() ==> is_ext_byte(#[trigger] s[k])) {
            Some(ascii_lower(s.subrange(j + 1, s.len() as int)))
        } else {
            None
        },
    }
}

/// The extension the MIME table offers for a type, if any.
pub open spec fn spec_mime_ext(m: Seq<u8>) -> Option<Seq<u8>> {
    let l = ascii_lower(m);
    if l == ascii_seq("image/png"@) {
        Some(ascii_seq("png"@))
    } else if l == ascii_seq("image/jpeg"@) || l == ascii_seq("image/jpg"@) {
        Some(ascii_seq("jpg"@))
    } else if l == ascii_seq("image/gif"@) {
        Some(ascii_seq("gif"@))
    } else if l == ascii_seq("image/webp"@) {
        Some(ascii_seq("webp"@))
    } else if l == ascii_seq("image/bmp"@) {
        Some(ascii_seq("bmp"@))
    } else if l == ascii_seq("image/svg+xml"@) {
        Some(ascii_seq("svg"@))
    } else {
        None
    }
}

/// The extension attachment ingestion uses: from the name, else from the
/// MIME type, else the generic binary extension.
pub open spec fn spec_infer_ext(name: Option<Seq<u8>>, mime: Option<Seq<u8>>) -> Seq<u8> {
    let from_name: Option<Seq<u8>> = match name {
        Some(n) => spec_name_ext(n),
        None => None,
    };
    match from_name {
        Some(e) => e,
        None => {
            let from_mime: Option<Seq<u8>> = match mime {
                Some(m) => spec_mime_ext(m),
                None => None,
            };
            match from_mime {
                Some(e) => e,
                None => ascii_seq("bin"@),
            }
        },
    }
}

/// Every byte of the sequence is ASCII.
pub open spec fn all_ascii_bytes(s: Seq<u8>) -> bool {
    forall|i: int| 0 <= i < s.len() ==> #[trigger] s[i] < 128
}

proof fn lemma_all_ascii_concat(a: Seq<u8>, b: Seq<u8>)
    requires
        all_ascii_bytes(a),
        all_ascii_bytes(b),
    ensures
        all_ascii_bytes(a + b),
{
    assert forall|i: int| 0 <= i < (a + b).len() implies #[trigger] (a + b)[i] < 128 by {
        if i < a.len() {
            assert((a + b)[i] == a[i]);
        } else {
            assert((a + b)[i] == b[i - a.len()]);
        }
    }
}

proof fn lemma_ascii_seq_ascii(s: Seq<char>)
    requires
        vstd::utf8::is_ascii_chars(s),
    ensures
        all_ascii_bytes(ascii_seq(s)),
{
    assert forall|i: int| 0 <= i < ascii_seq(s).len() implies #[trigger] ascii_seq(s)[i]
        < 128 by {
        assert('\0' <= s[i] <= '\u{7f}');
    }
}

proof fn lemma_dec_rep_ascii(n: nat)
    ensures
        all_ascii_bytes(dec_rep(n)),
{
    crate::json::lemma_dec_rep_first_digit(n);
    assert forall|i: int| 0 <= i < dec_rep(n).len() implies #[trigger] dec_rep(n)[i] < 128 by {
        assert(crate::json::is_digit(dec_rep(n)[i]));
    }
}

/// The bytes of an ASCII literal.
fn lit_vec(lit: &str) -> (r: Vec<u8>)
    requires
        vstd::string::is_ascii(lit),
    ensures
        r@ == ascii_seq(lit@),
{
    let mut out: Vec<u8> = Vec::new();
    append_lit(&mut out, lit);
    assert(out@ =~= ascii_seq(lit@));
    out
}

/// Whether a byte vector equals an ASCII literal.
fn bytes_eq_lit(v: &Vec<u8>, lit: &str) -> (r: bool)
    requires
        vstd::string::is_ascii(lit),
    ensures
        r == (v@ == ascii_seq(lit@)),
{
    let lb = lit.as_bytes();
    if v.len() != lb.len() {
        proof {
            broadcast use vstd::string::is_ascii_spec_bytes;

            assert(lb@.len() == ascii_seq(lit@).len());
        }
        return false;
    }
    match match_lit(v, 0, lit) {
        Some(_) => {
            proof {
                assert(v@.subrange(0, ascii_seq(lit@).len() as int) =~= v@);
            }
            true
        },
        None => {
            proof {
                if v@ == ascii_seq(lit@) {
                    assert(v@.subrange(0, ascii_seq(lit@).len() as int) =~= v@);
                }
            }
            false
        },
    }
}

/// Lowercases the ASCII letters of a byte vector.
fn lower_bytes(v: &Vec<u8>) -> (r: Vec<u8>)
    ensures
        r@ == ascii_lower(v@),
{
    let n = v.len();
    let mut out: Vec<u8> = Vec::new();
    let mut i: usize = 0;
    while i < n
        invariant
            i <= n,
            n == v@.len(),
            out@ == ascii_lower(v@).take(i as int),
        decreases n - i,
    {
        let b = v[i];
        if 65 <= b && b <= 90 {
            out.push(b + 32);
        } else {
            out.push(b);
        }
        assert(out@ =~= ascii_lower(v@).take(i + 1));
        i = i + 1;
    }
    assert(ascii_lower(v@).take(n as int) =~= ascii_lower(v@));
    out
}

/// The extension the MIME table offers, if any.
fn mime_ext(mime: &str) -> (r: Option<Vec<u8>>)
    ensures
        match r {
            Some(e) => spec_mime_ext(mime.spec_bytes()) == Some(e@),
            None => spec_mime_ext(mime.spec_bytes()) is None,
        },
{
    proof {
        reveal_strlit("image/png");
        reveal_strlit("image/jpeg");
        reveal_strlit("image/jpg");
        reveal_strlit("image/gif");
        reveal_strlit("image/webp");
        reveal_strlit("image/bmp");
        reveal_strlit("image/svg+xml");
        reveal_strlit("png");
        reveal_strlit("jpg");
        reveal_strlit("gif");
        reveal_strlit("webp");
        reveal_strlit("bmp");
        reveal_strlit("svg");
    }
    let mb = mime.as_bytes_vec();
    let l = lower_bytes(&mb);
    if bytes_eq_lit(&l, "image/png") {
        Some(lit_vec("png"))
    } else if bytes_eq_lit(&l, "image/jpeg") || bytes_eq_lit(&l, "image/jpg") {
        Some(lit_vec("jpg"))
    } else if bytes_eq_lit(&l, "image/gif") {
        Some(lit_vec("gif"))
    } else if bytes_eq_lit(&l, "image/webp") {
        Some(lit_vec("webp"))
    } else if bytes_eq_lit(&l, "image/bmp") {
        Some(lit_vec("bmp"))
    } else if bytes_eq_lit(&l, "image/svg+xml") {
        Some(lit_vec("svg"))
    } else {
        None
    }
}

/// The lowercased extension of a file name, if its final component has one.
fn name_ext(name: &str) -> (r: Option<Vec<u8>>)
    ensures
        match r {
            Some(e) => spec_name_ext(name.spec_bytes()) == Some(e@),
            None => spec_name_ext(name.spec_bytes()) is None,
        },
{
    let nb = name.as_bytes_vec();
    let n = nb.len();
    let ghost s = nb@;
    let mut i: usize = n;
    while i > 0 && nb[i - 1] != 46 && nb[i - 1] != 47 && nb[i - 1] != 92
        invariant
            i <= n,
            n == s.len(),
            nb@ == s,
            dot_pos(s, n as int) == dot_pos(s, i as int),
        decreases i,
    {
        i = i - 1;
    }
    if i == 0 || nb[i - 1] != 46 {
        return None;
    }
    let j = i - 1;
    assert(dot_pos(s, n as int) == Some(j as int));
    if j + 1 >= n || j == 0 || nb[j - 1] == 47 || nb[j - 1] == 92 {
        return None;
    }
    let mut k: usize = j + 1;
    while k < n && ((48 <= nb[k] && nb[k] <= 57) || (65 <= nb[k] && nb[k] <= 90) || (97 <= nb[k]
        && nb[k] <= 122))
        invariant
            j + 1 <= k <= n,
            n == s.len(),
            nb@ == s,
            forall|t: int| j < t < k ==> is_ext_byte(#[trigger] s[t]),
        decreases n - k,
    {
        k = k + 1;
    }
    if k < n {
        assert(!is_ext_byte(s[k as int]));
        return None;
    }
    let raw = slice_to_vec(slice_subrange(nb.as_slice(), j + 1, n));
    let e = lower_bytes(&raw);
    assert(raw@ == s.subrange(j + 1, n as int));
    Some(e)
}

/// The extension attachment ingestion uses for a name and a MIME type.
pub fn infer_image_extension(name: Option<&String>, mime: Option<&String>) -> (r: Vec<u8>)
    ensures
        r@ == spec_infer_ext(
            match name {
                Some(n) => Some(vstd::utf8::encode_utf8(n@)),
                None => None,
            },
            match mime {
                Some(m) => Some(vstd::utf8::encode_utf8(m@)),
                None => None,
            },
        ),
        forall|i: int| 0 <= i < r@.len() ==> is_ext_byte(#[trigger] r@[i]),
{
    proof {
        reveal_strlit("bin");
    }
    let from_name: Option<Vec<u8>> = match name {
        Some(n) => name_ext(n.as_str()),
        None => None,
    };
    let e: Vec<u8> = match from_name {
        Some(e) => e,
        None => {
            let from_mime: Option<Vec<u8>> = match mime {
                Some(m) => mime_ext(m.as_str()),
                None => None,
            };
            match from_mime {
                Some(e) => e,
                None => lit_vec("bin"),
            }
        },
    };
    proof {
        lemma_infer_ext_bytes(
            match name {
                Some(n) => Some(vstd::utf8::encode_utf8(n@)),
                None => None,
            },
            match mime {
                Some(m) => Some(vstd::utf8::encode_utf8(m@)),
                None => None,
            },
        );
    }
    e
}

/// Every byte an inferred extension holds is an extension byte.
proof fn lemma_infer_ext_bytes(name: Option<Seq<u8>>, mime: Option<Seq<u8>>)
    ensures
        forall|i: int|
            0 <= i < spec_infer_ext(name, mime).len() ==> is_ext_byte(
                #[trigger] spec_infer_ext(name, mime)[i],
            ),
{
    reveal_strlit("bin");
    reveal_strlit("png");
    reveal_strlit("jpg");
    reveal_strlit("gif");
    reveal_strlit("webp");
    reveal_strlit("bmp");
    reveal_strlit("svg");
    let e = spec_infer_ext(name, mime);
    assert forall|i: int| 0 <= i < e.len() implies is_ext_byte(#[trigger] e[i]) by {
        match name {
            Some(n) => {
                match dot_pos(n, n.len() as int) {
                    Some(j) => {
                        if j + 1 < n.len() && j > 0 && n[j - 1] != 47 && n[j - 1] != 92 && (forall|
                            k: int,
                        |
                            j < k < n.len() ==> is_ext_byte(#[trigger] n[k])) {
                            assert(e == ascii_lower(n.subrange(j + 1, n.len() as int)));
                            assert(is_ext_byte(n.subrange(j + 1, n.len() as int)[i]));
                        }
                    },
                    None => {},
                }
            },
            None => {},
        }
    }
}

/// Two-digit month bucket.
pub open spec fn pad2(m: u8) -> Seq<u8> {
    if m < 10 {
        seq![48u8, (48 + m) as u8]
    } else {
        dec_rep(m as nat)
    }
}

/// The vault-relative path of a fresh attachment: year and month buckets,
/// a fresh name, and the inferred extension.
pub open spec fn attachment_rel_bytes(year: u64, month: u8, id: Seq<char>, ext: Seq<u8>) -> Seq<
    u8,
> {
    ascii_seq("attachments/"@) + dec_rep(year as nat) + ascii_seq("/"@) + pad2(month) + ascii_seq(
        "/"@,
    ) + ascii_seq(id) + seq![46u8] + ext
}

/// Builds the vault-relative attachment path.
pub fn attachment_rel_path(year: u64, month: u8, id: &str, ext: &Vec<u8>) -> (r: String)
    requires
        1 <= month <= 12,
        vstd::string::is_ascii(id),
        forall|i: int| 0 <= i < ext@.len() ==> is_ext_byte(#[trigger] ext@[i]),
    ensures
        vstd::utf8::encode_utf8(r@) == attachment_rel_bytes(year, month, id@, ext@),
{
    proof {
        reveal_strlit("attachments/");
        reveal_strlit("/");
    }
    let mut out: Vec<u8> = Vec::new();
    append_lit(&mut out, "attachments/");
    append_u64(&mut out, year);
    append_lit(&mut out, "/");
    if month < 10 {
        out.push(48);
        out.push(48 + month);
    } else {
        append_u64(&mut out, month as u64);
        proof {
            assert(dec_rep(month as nat) == pad2(month));
        }
    }
    append_lit(&mut out, "/");
    let idb = id.as_bytes();
    out.extend_from_slice(idb);
    out.push(46);
    out.extend_from_slice(ext.as_slice());
    proof {
        broadcast use vstd::string::is_ascii_spec_bytes;

        assert(idb@ =~= ascii_seq(id@));
        assert(out@ =~= attachment_rel_bytes(year, month, id@, ext@));
        lemma_ascii_seq_ascii("attachments/"@);
        lemma_ascii_seq_ascii("/"@);
        lemma_ascii_seq_ascii(id@);
        lemma_dec_rep_ascii(year as nat);
        lemma_dec_rep_ascii(month as nat);
        assert(all_ascii_bytes(pad2(month)));
        assert(all_ascii_bytes(seq![46u8]));
        assert forall|i: int| 0 <= i < ext@.len() implies #[trigger] ext@[i] < 128 by {
            assert(is_ext_byte(ext@[i]));
        }
        lemma_all_ascii_concat(ascii_seq("attachments/"@), dec_rep(year as nat));
        lemma_all_ascii_concat(
            ascii_seq("attachments/"@) + dec_rep(year as nat),
            ascii_seq("/"@),
        );
        lemma_all_ascii_concat(
            ascii_seq("attachments/"@) + dec_rep(year as nat) + ascii_seq("/"@),
            pad2(month),
        );
        lemma_all_ascii_concat(
            ascii_seq("attachments/"@) + dec_rep(year as nat) + ascii_seq("/"@) + pad2(month),
            ascii_seq("/"@),
        );
        lemma_all_ascii_concat(
            ascii_seq("attachments/"@) + dec_rep(year as nat) + ascii_seq("/"@) + pad2(month)
                + ascii_seq("/"@),
            ascii_seq(id@),
        );
        lemma_all_ascii_concat(
            ascii_seq("attachments/"@) + dec_rep(year as nat) + ascii_seq("/"@) + pad2(month)
                + ascii_seq("/"@) + ascii_seq(id@),
            seq![46u8],
        );
        lemma_all_ascii_concat(
            ascii_seq("attachments/"@) + dec_rep(year as nat) + ascii_seq("/"@) + pad2(month)
                + ascii_seq("/"@) + ascii_seq(id@) + seq![46u8],
            ext@,
        );
        assert(attachment_rel_bytes(year, month, id@, ext@) == ascii_seq("attachments/"@)
            + dec_rep(year as nat) + ascii_seq("/"@) + pad2(month) + ascii_seq("/"@) + ascii_seq(
            id@,
        ) + seq![46u8] + ext@);
        assert(all_ascii_bytes(out@));
        crate::json::lemma_ascii_bytes(out@);
    }
    match vec_to_string(out) {
        Some(s) => s,
        None => {
            proof {
                assert(false);
            }
            String::new()
        },
    }
}

/// The first position in `p` past any leading slashes, scanning from `i`.
pub open spec fn trim_idx(p: Seq<char>, i: int) -> int
    decreases p.len() - i,
{
    if 0 <= i < p.len() && (p[i] == '/' || p[i] == '\\') {
        trim_idx(p, i + 1)
    } else {
        i
    }
}

/// Where a stored attachment path points: an absolute path stands as it
/// is; a relative one is joined to the vault root, leading slashes
/// stripped.
pub open spec fn spec_resolve(root: Seq<char>, path: Seq<char>) -> Seq<char> {
    if path.len() > 0 && path[0] == '/' {
        path
    } else {
        root + "/"@ + path.subrange(trim_idx(path, 0), path.len() as int)
    }
}

/// Resolves a stored attachment path against the vault root.
pub fn resolve_attachment_path(root: &str, path: &str) -> (r: String)
    ensures
        r@ == spec_resolve(root@, path@),
{
    let n = path.unicode_len();
    if n > 0 && path.get_char(0) == '/' {
        return path.to_owned();
    }
    let mut k: usize = 0;
    while k < n && (path.get_char(k) == '/' || path.get_char(k) == '\\')
        invariant
            k <= n,
            n == path@.len(),
            trim_idx(path@, 0) == trim_idx(path@, k as int),
        decreases n - k,
    {
        k = k + 1;
    }
    assert(trim_idx(path@, k as int) == k);
    let rest = path.substring_char(k, n);
    let mut out = root.to_owned();
    out.append("/");
    out.append(rest);
    out
}

} // verus!
