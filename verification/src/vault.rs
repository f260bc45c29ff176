//! The vault state machine.
//!
//! A `VaultManager` is either locked or holds one unlocked session.  Every
//! operation that touches the disk is split at the file boundary: the
//! caller hands in the bytes it read, and receives the writes to perform
//! (`FileWrite`), in the order they must be written.  Everything between
//! those edges — key handling, the index, the envelopes — is verified.

use vstd::prelude::*;
use vstd::string::StrSliceExecFns;
use vstd::string::StringExecFns;
use vstd::utf8::encode_utf8;

use crate::attach::attachment_bytes;
use crate::attach::attachment_rel_bytes;
use crate::attach::attachment_rel_path;
use crate::attach::decrypt_image_data;
use crate::attach::encrypt_image_data;
use crate::attach::infer_image_extension;
use crate::attach::resolve_attachment_path;
use crate::attach::spec_decrypt_attachment;
use crate::attach::spec_infer_ext;
use crate::attach::spec_resolve;
use crate::codec::EntryInfo;
use crate::codec::EntryInfoV;
use crate::codec::TextEncryption;
use crate::codec::index_measure;
use crate::codec::infos_view;
use crate::codec::lemma_enc_meta_payload_measure;
use crate::codec::lemma_index_measure_concat;
use crate::codec::lemma_index_measure_push;
use crate::codec::lemma_index_measure_singleton;
use crate::codec::lemma_index_measure_update;
use crate::codec::row_measure;
use crate::crypto::argon2id_key_of;
use crate::crypto::new_uuid_string;
use crate::crypto::random_bytes;
use crate::b64::b64_dec_of;
use crate::codec::spec_parse_meta_payload;
use crate::codec::spec_parse_stored_vault;
use crate::crypto::aes256_gcm_seal;
use crate::envelope::derive_key;
use crate::envelope::entries_wf;
use crate::envelope::ids_unique;
use crate::envelope::ENVELOPE_VERSION;
use crate::envelope::entry_info_wf;
use crate::envelope::open_entry;
use crate::envelope::open_vault;
use crate::envelope::passphrase_ok;
use crate::envelope::seal_entry;
use crate::envelope::seal_vault;
use crate::envelope::sealed_entry_bytes;
use crate::envelope::sealed_vault_bytes;
use crate::envelope::spec_open_entry;
use crate::envelope::spec_open_vault;
use crate::envelope::vault_seal_case;
use crate::envelope::OpenedVaultV;
use crate::errors::VaultError;
use crate::timefmt::rfc3339_of;
use crate::timefmt::rfc3339_utc;
use crate::timefmt::utc_year_month;
use crate::timefmt::year_month_of;
use crate::timefmt::MAX_TIMESTAMP;

verus! {

/// One journal record, index row plus decrypted content.
#[derive(Debug, Clone)]
pub struct Entry {
    pub id: String,
    pub title: String,
    pub content: String,
    pub created_at: u64,
    pub updated_at: u64,
    pub folder: Option<String>,
}

/// The mathematical shape of a record.
pub ghost struct EntryV {
    pub id: Seq<char>,
    pub title: Seq<char>,
    pub content: Seq<char>,
    pub created_at: u64,
    pub updated_at: u64,
    pub folder: Option<Seq<char>>,
}

impl View for Entry {
    type V = EntryV;

    open spec fn view(&self) -> EntryV {
        EntryV {
            id: self.id@,
            title: self.title@,
            content: self.content@,
            created_at: self.created_at,
            updated_at: self.updated_at,
            folder: match self.folder {
                Some(f) => Some(f@),
                None => None,
            },
        }
    }
}

impl Entry {
    /// The index row of this record.
    pub open spec fn info_view(&self) -> EntryInfoV {
        EntryInfoV {
            id: self.id@,
            title: self.title@,
            created_at: self.created_at,
            updated_at: self.updated_at,
            folder: match self.folder {
                Some(f) => Some(f@),
                None => None,
            },
        }
    }

    /// A fresh record: a new random id, both timestamps at `now`.
    pub fn new(title: &str, content: &str, now: u64) -> (r: Entry)
        ensures
            r@.title == title@,
            r@.content == content@,
            r@.created_at == now,
            r@.updated_at == now,
            r@.folder is None,
            r@.id.len() == 36,
            forall|i: int| 0 <= i < r@.id.len() ==> ' ' <= #[trigger] r@.id[i] <= '~',
    {
        let id = new_uuid_string();
        Entry {
            id,
            title: title.to_owned(),
            content: content.to_owned(),
            created_at: now,
            updated_at: now,
            folder: None,
        }
    }

    /// The index row of this record, as a value.
    pub fn metadata(&self) -> (r: EntryInfo)
        ensures
            r@ == self.info_view(),
    {
        EntryInfo {
            id: self.id.clone(),
            title: self.title.clone(),
            created_at: self.created_at,
            updated_at: self.updated_at,
            folder: clone_opt_string(&self.folder),
        }
    }
}

/// One pending write: the file at `path` is to receive `bytes`.
pub struct FileWrite {
    pub path: String,
    pub bytes: Vec<u8>,
}

/// What an unlock reports to the caller.
pub struct UnlockResponse {
    pub entries: Vec<EntryInfo>,
    pub created: bool,
    pub last_saved: Option<String>,
    pub vault_root: String,
    pub text_encryption: TextEncryption,
    pub available_text_encryptions: Vec<TextEncryption>,
}

/// The in-memory unlocked session.
pub struct UnlockedVault {
    pub key: Vec<u8>,
    pub salt: Vec<u8>,
    pub entries: Vec<EntryInfo>,
    pub path: String,
    pub root: String,
    pub entries_dir: String,
    pub attachments_dir: String,
    pub text_encryption: TextEncryption,
    pub last_saved: u64,
}

fn clone_opt_string(o: &Option<String>) -> (r: Option<String>)
    ensures
        r == o,
{
    match o {
        Some(s) => Some(s.clone()),
        None => None,
    }
}

/// Copies one index row.
pub fn clone_info(e: &EntryInfo) -> (r: EntryInfo)
    ensures
        r@ == e@,
{
    EntryInfo {
        id: e.id.clone(),
        title: e.title.clone(),
        created_at: e.created_at,
        updated_at: e.updated_at,
        folder: clone_opt_string(&e.folder),
    }
}

/// Copies an index.
pub fn clone_infos(v: &Vec<EntryInfo>) -> (r: Vec<EntryInfo>)
    ensures
        infos_view(r@) == infos_view(v@),
        r@.len() == v@.len(),
{
    let mut out: Vec<EntryInfo> = Vec::new();
    let n = v.len();
    let mut i: usize = 0;
    while i < n
        invariant
            i <= n,
            n == v@.len(),
            out@.len() == i,
            forall|j: int| 0 <= j < i ==> #[trigger] out@[j]@ == v@[j]@,
        decreases n - i,
    {
        out.push(clone_info(&v[i]));
        i = i + 1;
    }
    assert(infos_view(out@) =~= infos_view(v@));
    out
}

/// The path of one entry's envelope: `<entries_dir>/<id>.bin`.
pub open spec fn spec_entry_file_path(dir: Seq<char>, id: Seq<char>) -> Seq<char> {
    dir + "/"@ + id + ".bin"@
}

/// Builds the path of one entry's envelope.
pub fn entry_file_path(dir: &str, id: &str) -> (r: String)
    ensures
        r@ == spec_entry_file_path(dir@, id@),
{
    let mut out = dir.to_owned();
    out.append("/");
    out.append(id);
    out.append(".bin");
    out
}

/// The directory part of a path: everything before the last slash, or the
/// whole path when it has none.
pub open spec fn spec_parent_dir(p: Seq<char>) -> Seq<char> {
    match last_slash(p, p.len() as int) {
        Some(j) => p.subrange(0, j),
        None => p,
    }
}

/// The position of the last `/` strictly before `i`.
pub open spec fn last_slash(p: Seq<char>, i: int) -> Option<int>
    decreases i,
{
    if i <= 0 {
        None
    } else if p[i - 1] == '/' {
        Some(i - 1)
    } else {
        last_slash(p, i - 1)
    }
}

/// The directory holding a file.
pub fn parent_dir(p: &str) -> (r: String)
    ensures
        r@ == spec_parent_dir(p@),
{
    let n = p.unicode_len();
    let mut i: usize = n;
    while i > 0 && p.get_char(i - 1) != '/'
        invariant
            i <= n,
            n == p@.len(),
            last_slash(p@, n as int) == last_slash(p@, i as int),
        decreases i,
    {
        i = i - 1;
    }
    if i == 0 {
        return p.to_owned();
    }
    let r = p.substring_char(0, i - 1);
    assert(last_slash(p@, i as int) == Some(i - 1));
    r.to_owned()
}

/// Inserts a row into a descending-sorted index, after every row that ties
/// or beats it — so earlier rows keep their place on ties.
pub open spec fn insert_desc(sorted: Seq<EntryInfoV>, e: EntryInfoV) -> Seq<EntryInfoV>
    decreases sorted.len(),
{
    if sorted.len() == 0 {
        seq![e]
    } else if sorted[0].updated_at >= e.updated_at {
        seq![sorted[0]] + insert_desc(sorted.drop_first(), e)
    } else {
        seq![e] + sorted
    }
}

/// The index sorted by `updated_at` descending, insertion order kept on
/// ties.
pub open spec fn sort_desc(es: Seq<EntryInfoV>) -> Seq<EntryInfoV>
    decreases es.len(),
{
    if es.len() == 0 {
        Seq::empty()
    } else {
        insert_desc(sort_desc(es.drop_last()), es.last())
    }
}

/// Sorted by `updated_at`, newest first.
pub open spec fn sorted_desc(s: Seq<EntryInfoV>) -> bool {
    forall|i: int, j: int| 0 <= i < j < s.len() ==> s[i].updated_at >= s[j].updated_at
}

/// How many rows of the index carry this id.
pub open spec fn count_id(s: Seq<EntryInfoV>, id: Seq<char>) -> nat
    decreases s.len(),
{
    if s.len() == 0 {
        0
    } else {
        (if s[0].id == id {
            1nat
        } else {
            0nat
        }) + count_id(s.drop_first(), id)
    }
}

proof fn lemma_count_id_concat(a: Seq<EntryInfoV>, b: Seq<EntryInfoV>, id: Seq<char>)
    ensures
        count_id(a + b, id) == count_id(a, id) + count_id(b, id),
    decreases a.len(),
{
    if a.len() == 0 {
        assert(a + b =~= b);
    } else {
        assert((a + b).drop_first() =~= a.drop_first() + b);
        lemma_count_id_concat(a.drop_first(), b, id);
        assert((a + b)[0] == a[0]);
    }
}

proof fn lemma_count_id_singleton(e: EntryInfoV, id: Seq<char>)
    ensures
        count_id(seq![e], id) == (if e.id == id {
            1nat
        } else {
            0nat
        }),
{
    reveal_with_fuel(count_id, 3);
    assert(seq![e].len() == 1);
    assert(seq![e][0] == e);
    assert(seq![e].drop_first() =~= Seq::<EntryInfoV>::empty());
    assert(count_id(Seq::<EntryInfoV>::empty(), id) == 0);
}

/// How many rows of the index equal this row exactly.
pub open spec fn count_row(s: Seq<EntryInfoV>, x: EntryInfoV) -> nat
    decreases s.len(),
{
    if s.len() == 0 {
        0
    } else {
        (if s[0] == x {
            1nat
        } else {
            0nat
        }) + count_row(s.drop_first(), x)
    }
}

proof fn lemma_count_row_concat(a: Seq<EntryInfoV>, b: Seq<EntryInfoV>, x: EntryInfoV)
    ensures
        count_row(a + b, x) == count_row(a, x) + count_row(b, x),
    decreases a.len(),
{
    if a.len() == 0 {
        assert(a + b =~= b);
    } else {
        assert((a + b).drop_first() =~= a.drop_first() + b);
        lemma_count_row_concat(a.drop_first(), b, x);
        assert((a + b)[0] == a[0]);
    }
}

proof fn lemma_count_row_singleton(e: EntryInfoV, x: EntryInfoV)
    ensures
        count_row(seq![e], x) == (if e == x {
            1nat
        } else {
            0nat
        }),
{
    reveal_with_fuel(count_row, 3);
    assert(seq![e].len() == 1);
    assert(seq![e][0] == e);
    assert(seq![e].drop_first() =~= Seq::<EntryInfoV>::empty());
    assert(count_row(Seq::<EntryInfoV>::empty(), x) == 0);
}

/// A row counted at least once stands somewhere in the sequence.
pub proof fn lemma_count_row_contains(s: Seq<EntryInfoV>, x: EntryInfoV)
    requires
        count_row(s, x) > 0,
    ensures
        exists|k: int| 0 <= k < s.len() && s[k] == x,
    decreases s.len(),
{
    if s.len() > 0 {
        if s[0] == x {
            assert(s[0] == x);
        } else {
            lemma_count_row_contains(s.drop_first(), x);
            let k = choose|k: int| 0 <= k < s.drop_first().len() && s.drop_first()[k] == x;
            assert(s[k + 1] == x);
        }
    }
}

proof fn lemma_drop_first_sorted(s: Seq<EntryInfoV>)
    requires
        sorted_desc(s),
        s.len() > 0,
    ensures
        sorted_desc(s.drop_first()),
{
    assert forall|i: int, j: int|
        0 <= i < j < s.drop_first().len() implies s.drop_first()[i].updated_at
        >= s.drop_first()[j].updated_at by {
        assert(s[i + 1].updated_at >= s[j + 1].updated_at);
    }
}

proof fn lemma_insert_desc_props(sorted: Seq<EntryInfoV>, e: EntryInfoV)
    requires
        sorted_desc(sorted),
    ensures
        sorted_desc(insert_desc(sorted, e)),
        insert_desc(sorted, e).len() == sorted.len() + 1,
        forall|id: Seq<char>|
            #[trigger] count_id(insert_desc(sorted, e), id) == count_id(sorted, id) + (if e.id
                == id {
                1nat
            } else {
                0nat
            }),
        forall|x: EntryInfoV|
            #[trigger] count_row(insert_desc(sorted, e), x) == count_row(sorted, x) + (if e == x {
                1nat
            } else {
                0nat
            }),
    decreases sorted.len(),
{
    let r = insert_desc(sorted, e);
    if sorted.len() == 0 {
        assert forall|id: Seq<char>| #[trigger] count_id(r, id) == count_id(sorted, id) + (if e.id
            == id {
            1nat
        } else {
            0nat
        }) by {
            lemma_count_id_singleton(e, id);
        }
        assert forall|x: EntryInfoV| #[trigger] count_row(r, x) == count_row(sorted, x) + (if e
            == x {
            1nat
        } else {
            0nat
        }) by {
            lemma_count_row_singleton(e, x);
        }
        assert(r == seq![e]);
        assert(sorted_desc(r));
    } else if sorted[0].updated_at >= e.updated_at {
        lemma_drop_first_sorted(sorted);
        lemma_insert_desc_props(sorted.drop_first(), e);
        let inner = insert_desc(sorted.drop_first(), e);
        assert(r == seq![sorted[0]] + inner);
        assert forall|id: Seq<char>| #[trigger] count_id(r, id) == count_id(sorted, id) + (if e.id
            == id {
            1nat
        } else {
            0nat
        }) by {
            lemma_count_id_concat(seq![sorted[0]], inner, id);
            lemma_count_id_singleton(sorted[0], id);
            lemma_count_id_concat(seq![sorted[0]], sorted.drop_first(), id);
            assert(seq![sorted[0]] + sorted.drop_first() =~= sorted);
        }
        assert forall|x: EntryInfoV| #[trigger] count_row(r, x) == count_row(sorted, x) + (if e
            == x {
            1nat
        } else {
            0nat
        }) by {
            lemma_count_row_concat(seq![sorted[0]], inner, x);
            lemma_count_row_singleton(sorted[0], x);
            lemma_count_row_concat(seq![sorted[0]], sorted.drop_first(), x);
            assert(seq![sorted[0]] + sorted.drop_first() =~= sorted);
        }
        assert(sorted_desc(r)) by {
            assert forall|i: int, j: int| 0 <= i < j < r.len() implies r[i].updated_at
                >= r[j].updated_at by {
                if i == 0 {
                    assert(r[j] == inner[j - 1]);
                    lemma_insert_desc_bound(sorted.drop_first(), e, sorted[0].updated_at);
                } else {
                    assert(r[i] == inner[i - 1] && r[j] == inner[j - 1]);
                }
            }
        }
    } else {
        assert(r == seq![e] + sorted);
        assert forall|id: Seq<char>| #[trigger] count_id(r, id) == count_id(sorted, id) + (if e.id
            == id {
            1nat
        } else {
            0nat
        }) by {
            lemma_count_id_concat(seq![e], sorted, id);
            lemma_count_id_singleton(e, id);
        }
        assert forall|x: EntryInfoV| #[trigger] count_row(r, x) == count_row(sorted, x) + (if e
            == x {
            1nat
        } else {
            0nat
        }) by {
            lemma_count_row_concat(seq![e], sorted, x);
            lemma_count_row_singleton(e, x);
        }
        assert(sorted_desc(r)) by {
            assert forall|i: int, j: int| 0 <= i < j < r.len() implies r[i].updated_at
                >= r[j].updated_at by {
                if i == 0 {
                    assert(r[j] == sorted[j - 1]);
                    if j >= 2 {
                        assert(sorted[0].updated_at >= sorted[j - 1].updated_at);
                    }
                } else {
                    assert(r[i] == sorted[i - 1] && r[j] == sorted[j - 1]);
                }
            }
        }
    }
}

/// Every row of an insertion under a bound stays under the bound.
proof fn lemma_insert_desc_bound(sorted: Seq<EntryInfoV>, e: EntryInfoV, bound: u64)
    requires
        forall|i: int| 0 <= i < sorted.len() ==> (#[trigger] sorted[i]).updated_at <= bound,
        e.updated_at <= bound,
    ensures
        forall|i: int|
            0 <= i < insert_desc(sorted, e).len() ==> (#[trigger] insert_desc(sorted, e)[
                i
            ]).updated_at <= bound,
    decreases sorted.len(),
{
    let r = insert_desc(sorted, e);
    if sorted.len() == 0 {
        assert(r[0] == e);
    } else if sorted[0].updated_at >= e.updated_at {
        assert forall|i: int| 0 <= i < sorted.drop_first().len() implies (
        #[trigger] sorted.drop_first()[i]).updated_at <= bound by {
            assert(sorted[i + 1].updated_at <= bound);
        }
        lemma_insert_desc_bound(sorted.drop_first(), e, bound);
        let inner = insert_desc(sorted.drop_first(), e);
        assert forall|i: int| 0 <= i < r.len() implies (#[trigger] r[i]).updated_at <= bound by {
            if i > 0 {
                assert(r[i] == inner[i - 1]);
            } else {
                assert(r[0] == sorted[0]);
            }
        }
    } else {
        assert forall|i: int| 0 <= i < r.len() implies (#[trigger] r[i]).updated_at <= bound by {
            if i > 0 {
                assert(r[i] == sorted[i - 1]);
            } else {
                assert(r[0] == e);
            }
        }
    }
}

/// LAW — the sorted listing: `sort_desc` keeps the length, is sorted by
/// `updated_at` descending, keeps every row, and keeps each id's count.
/// With it, a row updated later than another stands strictly earlier.
pub proof fn lemma_sort_desc_props(es: Seq<EntryInfoV>)
    ensures
        sort_desc(es).len() == es.len(),
        sorted_desc(sort_desc(es)),
        forall|id: Seq<char>| #[trigger] count_id(sort_desc(es), id) == count_id(es, id),
        forall|x: EntryInfoV| #[trigger] count_row(sort_desc(es), x) == count_row(es, x),
    decreases es.len(),
{
    if es.len() > 0 {
        lemma_sort_desc_props(es.drop_last());
        lemma_insert_desc_props(sort_desc(es.drop_last()), es.last());
        assert forall|id: Seq<char>| #[trigger] count_id(sort_desc(es), id) == count_id(
            es,
            id,
        ) by {
            assert(es.drop_last() + seq![es.last()] =~= es);
            lemma_count_id_concat(es.drop_last(), seq![es.last()], id);
            lemma_count_id_singleton(es.last(), id);
        }
        assert forall|x: EntryInfoV| #[trigger] count_row(sort_desc(es), x) == count_row(
            es,
            x,
        ) by {
            assert(es.drop_last() + seq![es.last()] =~= es);
            lemma_count_row_concat(es.drop_last(), seq![es.last()], x);
            lemma_count_row_singleton(es.last(), x);
        }
    }
}

/// LAW — ordering in the listing: a row updated strictly later than
/// another stands strictly earlier.
pub proof fn lemma_later_update_sorts_first(es: Seq<EntryInfoV>, i: int, j: int)
    requires
        0 <= i < sort_desc(es).len(),
        0 <= j < sort_desc(es).len(),
        sort_desc(es)[i].updated_at > sort_desc(es)[j].updated_at,
    ensures
        i < j,
{
    lemma_sort_desc_props(es);
    if i >= j {
        if i == j {
        } else {
            assert(sort_desc(es)[j].updated_at >= sort_desc(es)[i].updated_at);
        }
    }
}

/// LAW — a freshly created id appears exactly once in the listing: if no
/// existing row carries `info.id`, the sorted listing of the index with
/// `info` appended carries that id exactly once, and the new row itself
/// stands somewhere in the listing.
pub proof fn lemma_fresh_id_listed_once(es: Seq<EntryInfoV>, info: EntryInfoV)
    requires
        forall|i: int| 0 <= i < es.len() ==> (#[trigger] es[i]).id != info.id,
    ensures
        count_id(sort_desc(es.push(info)), info.id) == 1,
        exists|k: int|
            0 <= k < sort_desc(es.push(info)).len() && #[trigger] sort_desc(es.push(info))[k]
                == info,
    decreases es.len(),
{
    lemma_sort_desc_props(es.push(info));
    assert(es + seq![info] =~= es.push(info));
    lemma_count_id_concat(es, seq![info], info.id);
    lemma_count_id_singleton(info, info.id);
    lemma_count_id_fresh(es, info.id);
    lemma_count_row_concat(es, seq![info], info);
    lemma_count_row_singleton(info, info);
    assert(count_row(sort_desc(es.push(info)), info) >= 1);
    lemma_count_row_contains(sort_desc(es.push(info)), info);
}

proof fn lemma_count_id_fresh(es: Seq<EntryInfoV>, id: Seq<char>)
    requires
        forall|i: int| 0 <= i < es.len() ==> (#[trigger] es[i]).id != id,
    ensures
        count_id(es, id) == 0,
    decreases es.len(),
{
    if es.len() > 0 {
        assert(es[0].id != id);
        assert forall|i: int| 0 <= i < es.drop_first().len() implies (#[trigger] es.drop_first()[
            i
        ]).id != id by {
            assert(es.drop_first()[i] == es[i + 1]);
        }
        lemma_count_id_fresh(es.drop_first(), id);
    }
}

proof fn lemma_insert_desc_at(sorted: Seq<EntryInfoV>, e: EntryInfoV, k: int)
    requires
        sorted_desc(sorted),
        0 <= k <= sorted.len(),
        forall|i: int| 0 <= i < k ==> (#[trigger] sorted[i]).updated_at >= e.updated_at,
        k < sorted.len() ==> sorted[k].updated_at < e.updated_at,
    ensures
        insert_desc(sorted, e) == sorted.subrange(0, k) + seq![e] + sorted.subrange(
            k,
            sorted.len() as int,
        ),
    decreases k,
{
    if k == 0 {
        if sorted.len() == 0 {
            assert(insert_desc(sorted, e) =~= sorted.subrange(0, 0) + seq![e] + sorted.subrange(
                0,
                0,
            ));
        } else {
            assert(sorted[0].updated_at < e.updated_at);
            assert(insert_desc(sorted, e) == seq![e] + sorted);
            assert(seq![e] + sorted =~= sorted.subrange(0, 0) + seq![e] + sorted.subrange(
                0,
                sorted.len() as int,
            ));
        }
    } else {
        assert(sorted[0].updated_at >= e.updated_at);
        assert(sorted_desc(sorted.drop_first())) by {
            assert forall|i: int, j: int|
                0 <= i < j < sorted.drop_first().len() implies sorted.drop_first()[i].updated_at
                >= sorted.drop_first()[j].updated_at by {
                assert(sorted[i + 1].updated_at >= sorted[j + 1].updated_at);
            }
        }
        assert forall|i: int| 0 <= i < k - 1 implies (#[trigger] sorted.drop_first()[
            i
        ]).updated_at >= e.updated_at by {
            assert(sorted[i + 1].updated_at >= e.updated_at);
        }
        if k - 1 < sorted.drop_first().len() {
            assert(sorted.drop_first()[k - 1] == sorted[k]);
        }
        lemma_insert_desc_at(sorted.drop_first(), e, k - 1);
        assert(insert_desc(sorted, e) == seq![sorted[0]] + insert_desc(sorted.drop_first(), e));
        assert(seq![sorted[0]] + (sorted.drop_first().subrange(0, k - 1) + seq![e]
            + sorted.drop_first().subrange(k - 1, sorted.drop_first().len() as int))
            =~= sorted.subrange(0, k) + seq![e] + sorted.subrange(k, sorted.len() as int));
    }
}

/// Sorts an index by `updated_at` descending, stably.
pub fn sort_infos(v: &Vec<EntryInfo>) -> (r: Vec<EntryInfo>)
    ensures
        infos_view(r@) == sort_desc(infos_view(v@)),
{
    let n = v.len();
    let mut out: Vec<EntryInfo> = Vec::new();
    let mut i: usize = 0;
    proof {
        assert(infos_view(v@).take(0) =~= Seq::<EntryInfoV>::empty());
        assert(infos_view(out@) =~= sort_desc(infos_view(v@).take(0)));
    }
    while i < n
        invariant
            i <= n,
            n == v@.len(),
            infos_view(out@) == sort_desc(infos_view(v@).take(i as int)),
            sorted_desc(infos_view(out@)),
        decreases n - i,
    {
        let e = clone_info(&v[i]);
        let m = out.len();
        let mut k: usize = 0;
        while k < m && out[k].updated_at >= e.updated_at
            invariant
                k <= m,
                m == out@.len(),
                e@ == v@[i as int]@,
                i < n,
                n == v@.len(),
                infos_view(out@) == sort_desc(infos_view(v@).take(i as int)),
                sorted_desc(infos_view(out@)),
                forall|t: int|
                    0 <= t < k ==> (#[trigger] infos_view(out@)[t]).updated_at >= e@.updated_at,
            decreases m - k,
        {
            assert(infos_view(out@)[k as int].updated_at >= e@.updated_at);
            k = k + 1;
        }
        proof {
            if k < m {
                assert(infos_view(out@)[k as int].updated_at < e@.updated_at);
            }
            lemma_insert_desc_at(infos_view(out@), e@, k as int);
        }
        let ghost before = infos_view(out@);
        out.insert(k, e);
        proof {
            assert(infos_view(out@) =~= before.subrange(0, k as int) + seq![e@]
                + before.subrange(k as int, before.len() as int));
            assert(infos_view(v@).take(i + 1).drop_last() =~= infos_view(v@).take(i as int));
            assert(infos_view(v@).take(i + 1).last() == e@);
            assert(infos_view(out@) == sort_desc(infos_view(v@).take(i + 1)));
            lemma_sort_desc_props(infos_view(v@).take(i + 1));
        }
        i = i + 1;
    }
    proof {
        assert(infos_view(v@).take(n as int) =~= infos_view(v@));
    }
    out
}

/// The index with every row of a given id removed.
pub open spec fn remove_id(es: Seq<EntryInfoV>, id: Seq<char>) -> Seq<EntryInfoV>
    decreases es.len(),
{
    if es.len() == 0 {
        Seq::empty()
    } else {
        remove_id(es.drop_last(), id) + (if es.last().id == id {
            Seq::<EntryInfoV>::empty()
        } else {
            seq![es.last()]
        })
    }
}

/// LAW — deletion is total in the index: no row of the removed id remains.
pub proof fn lemma_remove_id_absent(es: Seq<EntryInfoV>, id: Seq<char>)
    ensures
        forall|j: int|
            0 <= j < remove_id(es, id).len() ==> (#[trigger] remove_id(es, id)[j]).id != id,
        forall|j: int|
            0 <= j < remove_id(es, id).len() ==> exists|i: int|
                0 <= i < es.len() && es[i] == #[trigger] remove_id(es, id)[j],
    decreases es.len(),
{
    if es.len() > 0 {
        lemma_remove_id_absent(es.drop_last(), id);
        let r = remove_id(es, id);
        let r0 = remove_id(es.drop_last(), id);
        assert forall|j: int| 0 <= j < r.len() implies (#[trigger] r[j]).id != id by {
            if j < r0.len() {
                assert(r[j] == r0[j]);
            } else {
                assert(r[j] == es.last());
            }
        }
        assert forall|j: int| 0 <= j < r.len() implies exists|i: int|
            0 <= i < es.len() && es[i] == #[trigger] r[j] by {
            if j < r0.len() {
                assert(r[j] == r0[j]);
                let i = choose|i: int| 0 <= i < es.drop_last().len() && es.drop_last()[i] == r0[j];
                assert(es[i] == r[j]);
            } else {
                assert(r[j] == es.last());
                assert(es[es.len() - 1] == r[j]);
            }
        }
    }
}

/// Removing rows never grows the index measure.
proof fn lemma_index_measure_remove_id(es: Seq<EntryInfoV>, id: Seq<char>)
    ensures
        index_measure(remove_id(es, id)) <= index_measure(es),
    decreases es.len(),
{
    if es.len() > 0 {
        lemma_index_measure_remove_id(es.drop_last(), id);
        assert(es.drop_last().push(es.last()) =~= es);
        lemma_index_measure_push(es.drop_last(), es.last());
        if es.last().id == id {
            assert(remove_id(es, id) =~= remove_id(es.drop_last(), id));
        } else {
            lemma_index_measure_concat(remove_id(es.drop_last(), id), seq![es.last()]);
            lemma_index_measure_singleton(es.last());
        }
    }
}

/// A fresh id keeps the index's ids unique.
proof fn lemma_push_fresh_unique(es: Seq<EntryInfoV>, e: EntryInfoV)
    requires
        ids_unique(es),
        forall|i: int| 0 <= i < es.len() ==> (#[trigger] es[i]).id != e.id,
    ensures
        ids_unique(es.push(e)),
{
    assert forall|i: int, j: int| 0 <= i < j < es.push(e).len() implies (#[trigger] es.push(e)[
    i]).id != (#[trigger] es.push(e)[j]).id by {
        if j < es.len() {
            assert(es.push(e)[i] == es[i]);
            assert(es.push(e)[j] == es[j]);
        } else {
            assert(es.push(e)[i] == es[i]);
            assert(es.push(e)[j] == e);
        }
    }
}

/// Replacing a row by one with the same id keeps the ids unique.
proof fn lemma_update_same_id_unique(es: Seq<EntryInfoV>, k: int, e: EntryInfoV)
    requires
        ids_unique(es),
        0 <= k < es.len(),
        e.id == es[k].id,
    ensures
        ids_unique(es.update(k, e)),
{
    assert forall|i: int, j: int| 0 <= i < j < es.update(k, e).len() implies (#[trigger] es.update(
        k,
        e,
    )[i]).id != (#[trigger] es.update(k, e)[j]).id by {
        assert((es[i]).id != (es[j]).id);
        if i == k {
            assert(es.update(k, e)[i] == e);
            assert(es.update(k, e)[j] == es[j]);
        } else if j == k {
            assert(es.update(k, e)[i] == es[i]);
            assert(es.update(k, e)[j] == e);
        } else {
            assert(es.update(k, e)[i] == es[i]);
            assert(es.update(k, e)[j] == es[j]);
        }
    }
}

/// Removal keeps the remaining ids unique.
proof fn lemma_remove_id_unique(es: Seq<EntryInfoV>, id: Seq<char>)
    requires
        ids_unique(es),
    ensures
        ids_unique(remove_id(es, id)),
    decreases es.len(),
{
    if es.len() > 0 {
        assert(ids_unique(es.drop_last())) by {
            assert forall|i: int, j: int| 0 <= i < j < es.drop_last().len() implies (
            #[trigger] es.drop_last()[i]).id != (#[trigger] es.drop_last()[j]).id by {
                assert(es.drop_last()[i] == es[i]);
                assert(es.drop_last()[j] == es[j]);
            }
        }
        lemma_remove_id_unique(es.drop_last(), id);
        lemma_remove_id_absent(es.drop_last(), id);
        let r0 = remove_id(es.drop_last(), id);
        let r = remove_id(es, id);
        if es.last().id == id {
            assert(r =~= r0);
        } else {
            assert(r == r0 + seq![es.last()]);
            assert forall|i: int, j: int| 0 <= i < j < r.len() implies (#[trigger] r[i]).id != (
            #[trigger] r[j]).id by {
                if j < r0.len() {
                    assert(r[i] == r0[i]);
                    assert(r[j] == r0[j]);
                } else {
                    assert(r[i] == r0[i]);
                    assert(r[j] == es.last());
                    let t = choose|t: int|
                        0 <= t < es.drop_last().len() && es.drop_last()[t] == r0[i];
                    assert(es[t] == r0[i]);
                    assert(es[t].id != es[es.len() - 1].id);
                    assert(es.last() == es[es.len() - 1]);
                }
            }
        }
    }
}

/// The vault state machine: locked, or holding one unlocked session.
pub struct VaultManager {
    pub session: Option<UnlockedVault>,
}

impl Default for VaultManager {
    /// A locked manager.
    fn default() -> (r: Self)
        ensures
            !r.is_unlocked(),
            r.inv(),
    {
        VaultManager { session: None }
    }
}

impl VaultManager {
    /// Whether a session is open.
    pub open spec fn is_unlocked(&self) -> bool {
        self.session is Some
    }

    /// The session key.
    pub open spec fn key_view(&self) -> Seq<u8> {
        self.session->Some_0.key@
    }

    /// The session salt.
    pub open spec fn salt_view(&self) -> Seq<u8> {
        self.session->Some_0.salt@
    }

    /// The in-memory entry index.
    pub open spec fn entries_view(&self) -> Seq<EntryInfoV> {
        infos_view(self.session->Some_0.entries@)
    }

    /// The metadata file path.
    pub open spec fn path_view(&self) -> Seq<char> {
        self.session->Some_0.path@
    }

    /// The vault root directory.
    pub open spec fn root_view(&self) -> Seq<char> {
        self.session->Some_0.root@
    }

    /// The entries directory.
    pub open spec fn entries_dir_view(&self) -> Seq<char> {
        self.session->Some_0.entries_dir@
    }

    /// The attachments directory.
    pub open spec fn attachments_dir_view(&self) -> Seq<char> {
        self.session->Some_0.attachments_dir@
    }

    /// When the metadata envelope was last sealed.
    pub open spec fn last_saved_spec(&self) -> u64 {
        self.session->Some_0.last_saved
    }

    /// The session's well-formedness: a 32-byte key, a 16-byte salt, an
    /// index the codec can re-encode, and no two rows sharing an id.
    pub open spec fn inv(&self) -> bool {
        self.is_unlocked() ==> {
            &&& self.key_view().len() == 32
            &&& self.salt_view().len() == 16
            &&& entries_wf(self.entries_view())
            &&& ids_unique(self.entries_view())
            &&& self.last_saved_spec() <= MAX_TIMESTAMP
        }
    }

    /// A locked manager.
    pub fn new() -> (r: Self)
        ensures
            !r.is_unlocked(),
            r.inv(),
    {
        VaultManager { session: None }
    }

    /// Discards the session; key material goes out of scope.  Idempotent.
    pub fn lock(&mut self)
        ensures
            !final(self).is_unlocked(),
            final(self).inv(),
    {
        self.session = None;
    }

    /// The vault root of the open session.
    pub fn vault_root(&self) -> (r: Result<String, VaultError>)
        ensures
            match r {
                Ok(p) => self.is_unlocked() && p@ == self.root_view(),
                Err(e) => !self.is_unlocked() && e == VaultError::VaultLocked,
            },
    {
        match &self.session {
            None => Err(VaultError::VaultLocked),
            Some(v) => Ok(v.root.clone()),
        }
    }

    /// The entry index, sorted by `updated_at` descending, ties kept in
    /// insertion order.
    pub fn list(&self) -> (r: Result<Vec<EntryInfo>, VaultError>)
        ensures
            match r {
                Ok(l) => self.is_unlocked() && infos_view(l@) == sort_desc(self.entries_view()),
                Err(e) => !self.is_unlocked() && e == VaultError::VaultLocked,
            },
    {
        match &self.session {
            None => Err(VaultError::VaultLocked),
            Some(v) => Ok(sort_infos(&v.entries)),
        }
    }

    /// Opens a vault: reads the stored envelope the caller hands in, or
    /// creates a fresh vault when there is none (`stored` is `None`), in
    /// which case the returned write persists the new empty envelope.
    ///
    /// The last clause is the round trip: a stored envelope sealed for
    /// this passphrase unlocks to exactly the sealed index.
    #[verifier::rlimit(100)]
    #[verifier::spinoff_prover]
    pub fn unlock(
        &mut self,
        passphrase: &str,
        metadata_path: String,
        stored: Option<Vec<u8>>,
        preferred: Option<TextEncryption>,
        now: u64,
    ) -> (r: Result<(UnlockResponse, Option<FileWrite>), VaultError>)
        requires
            old(self).inv(),
            now <= MAX_TIMESTAMP,
        ensures
            final(self).inv(),
            r is Ok ==> final(self).is_unlocked() && final(self).key_view() == argon2id_key_of(
                passphrase@,
                final(self).salt_view(),
            ) && final(self).path_view() == metadata_path@ && final(self).root_view()
                == spec_parent_dir(metadata_path@),
            r is Err ==> *final(self) == *old(self),
            match stored {
                None => {
                    &&& (r is Ok <==> passphrase_ok(passphrase@))
                    &&& (r matches Ok(p) ==> {
                        &&& p.0.created
                        &&& p.0.entries@.len() == 0
                        &&& final(self).entries_view() == Seq::<EntryInfoV>::empty()
                        &&& final(self).last_saved_spec() == now
                        &&& p.0.vault_root@ == spec_parent_dir(metadata_path@)
                        &&& (p.0.last_saved matches Some(s) && s@ == rfc3339_of(now))
                        &&& p.0.text_encryption == TextEncryption::Aes256Gcm
                        &&& p.0.available_text_encryptions@ == seq![TextEncryption::Aes256Gcm]
                        &&& (p.1 matches Some(fw) && fw.path@ == metadata_path@ && exists|
                            nonce: Seq<u8>,
                        |
                            nonce.len() == 12 && fw.bytes@ == #[trigger] sealed_vault_bytes(
                                final(self).key_view(),
                                final(self).salt_view(),
                                nonce,
                                Seq::<EntryInfoV>::empty(),
                                now,
                            ))
                    })
                    &&& (r matches Err(e) ==> e == VaultError::KeyDerivationError)
                },
                Some(b) => {
                    &&& (match r {
                        Ok(p) => {
                            &&& spec_open_vault(passphrase@, b@) is Ok
                            &&& final(self).entries_view() == spec_open_vault(
                                passphrase@,
                                b@,
                            )->Ok_0.entries
                            &&& final(self).salt_view() == spec_open_vault(
                                passphrase@,
                                b@,
                            )->Ok_0.salt
                            &&& infos_view(p.0.entries@) == final(self).entries_view()
                            &&& !p.0.created
                            &&& p.1 is None
                            &&& p.0.vault_root@ == spec_parent_dir(metadata_path@)
                            &&& (match spec_open_vault(passphrase@, b@)->Ok_0.last_saved {
                                Some(ts) => p.0.last_saved matches Some(s) && s@ == rfc3339_of(
                                    ts,
                                ),
                                None => p.0.last_saved is None,
                            })
                            &&& p.0.text_encryption == TextEncryption::Aes256Gcm
                            &&& p.0.available_text_encryptions@ == seq![
                                TextEncryption::Aes256Gcm,
                            ]
                        },
                        Err(e) => spec_open_vault(passphrase@, b@) == Err::<
                            OpenedVaultV,
                            VaultError,
                        >(e),
                    })
                    &&& (forall|salt: Seq<u8>, nonce: Seq<u8>, es: Seq<EntryInfoV>, now0: u64|
                        #[trigger] vault_seal_case(passphrase@, b@, salt, nonce, es, now0)
                            ==> r is Ok && final(self).entries_view() == es
                            && final(self).salt_view() == salt)
                    &&& (r is Ok ==> exists|nonce: Seq<u8>, pt: Seq<u8>|
                        {
                            &&& (spec_parse_stored_vault(b@) matches Some(sv) && b64_dec_of(
                                sv.nonce_b64,
                            ) == Some(nonce) && b64_dec_of(sv.ct_b64) == Some(
                                #[trigger] aes256_gcm_seal(final(self).key_view(), nonce, pt),
                            ))
                            &&& nonce.len() == 12
                            &&& spec_parse_meta_payload(pt) == Some(
                                (ENVELOPE_VERSION, final(self).entries_view()),
                            )
                        })
                },
            },
    {
        let root = parent_dir(metadata_path.as_str());
        let mut entries_dir = root.clone();
        entries_dir.append("/entries");
        let mut attachments_dir = root.clone();
        attachments_dir.append("/attachments");
        let mut available: Vec<TextEncryption> = Vec::new();
        available.push(TextEncryption::Aes256Gcm);
        proof {
            assert(available@ =~= seq![TextEncryption::Aes256Gcm]);
        }
        match stored {
            None => {
                let salt = random_bytes(16);
                let key = match derive_key(passphrase, &salt) {
                    Err(e) => {
                        return Err(e);
                    },
                    Ok(k) => k,
                };
                let text_encryption = match preferred {
                    Some(t) => t,
                    None => TextEncryption::Aes256Gcm,
                };
                let empty: Vec<EntryInfo> = Vec::new();
                proof {
                    lemma_empty_payload_small();
                    assert(infos_view(empty@) =~= Seq::<EntryInfoV>::empty());
                }
                let bytes = match seal_vault(&key, &salt, &empty, now) {
                    Err(_) => {
                        proof {
                            assert(false);
                        }
                        return Err(VaultError::EncryptionFailed);
                    },
                    Ok(b) => b,
                };
                let fw = FileWrite { path: metadata_path.clone(), bytes };
                let last_saved_str = match rfc3339_utc(now) {
                    Some(s) => Some(s),
                    None => None,
                };
                let resp = UnlockResponse {
                    entries: Vec::new(),
                    created: true,
                    last_saved: last_saved_str,
                    vault_root: root.clone(),
                    text_encryption,
                    available_text_encryptions: available,
                };
                self.session = Some(
                    UnlockedVault {
                        key,
                        salt,
                        entries: empty,
                        path: metadata_path,
                        root,
                        entries_dir,
                        attachments_dir,
                        text_encryption,
                        last_saved: now,
                    },
                );
                assert(final(self).entries_view() =~= Seq::<EntryInfoV>::empty());
                Ok((resp, Some(fw)))
            },
            Some(b) => {
                let ov = match open_vault(passphrase, &b) {
                    Err(e) => {
                        return Err(e);
                    },
                    Ok(ov) => ov,
                };
                let ghost ovv = ov@;
                let resp_entries = clone_infos(&ov.entries);
                let last_saved_str = match ov.last_saved {
                    Some(ts) => match rfc3339_utc(ts) {
                        Some(s) => Some(s),
                        None => None,
                    },
                    None => None,
                };
                let last_saved = match ov.last_saved {
                    Some(ts) => ts,
                    None => now,
                };
                let resp = UnlockResponse {
                    entries: resp_entries,
                    created: false,
                    last_saved: last_saved_str,
                    vault_root: root.clone(),
                    text_encryption: TextEncryption::Aes256Gcm,
                    available_text_encryptions: available,
                };
                self.session = Some(
                    UnlockedVault {
                        key: ov.key,
                        salt: ov.salt,
                        entries: ov.entries,
                        path: metadata_path,
                        root,
                        entries_dir,
                        attachments_dir,
                        text_encryption: TextEncryption::Aes256Gcm,
                        last_saved,
                    },
                );
                proof {
                    let (nonce, pt) = choose|nonce: Seq<u8>, pt: Seq<u8>|
                        {
                            &&& (spec_parse_stored_vault(b@) matches Some(sv) && b64_dec_of(
                                sv.nonce_b64,
                            ) == Some(nonce) && b64_dec_of(sv.ct_b64) == Some(
                                #[trigger] aes256_gcm_seal(ovv.key, nonce, pt),
                            ))
                            &&& nonce.len() == 12
                            &&& spec_parse_meta_payload(pt) == Some(
                                (ENVELOPE_VERSION, ovv.entries),
                            )
                        };
                    assert(final(self).key_view() == ovv.key);
                    assert(final(self).entries_view() == ovv.entries);
                    assert(spec_parse_stored_vault(b@) matches Some(sv) && b64_dec_of(
                        sv.nonce_b64,
                    ) == Some(nonce) && b64_dec_of(sv.ct_b64) == Some(
                        aes256_gcm_seal(final(self).key_view(), nonce, pt),
                    ));
                }
                Ok((resp, None))
            },
        }
    }

    /// Looks up an index row and decrypts the entry file the caller read;
    /// `file` is `None` when no file stands at the entry's path.
    pub fn load_entry(&self, id: &str, file: Option<Vec<u8>>) -> (r: Result<Entry, VaultError>)
        requires
            self.inv(),
        ensures
            !self.is_unlocked() ==> r == Err::<Entry, VaultError>(VaultError::VaultLocked),
            self.is_unlocked() && (forall|j: int|
                0 <= j < self.entries_view().len() ==> (#[trigger] self.entries_view()[j]).id
                    != id@) ==> r == Err::<Entry, VaultError>(VaultError::EntryNotFound),
            match r {
                Ok(e) => {
                    &&& self.is_unlocked()
                    &&& file is Some
                    &&& exists|k: int|
                        0 <= k < self.entries_view().len() && (#[trigger] self.entries_view()[
                        k]).id == id@ && e@.title == self.entries_view()[k].title && e@.created_at
                            == self.entries_view()[k].created_at && e@.updated_at
                            == self.entries_view()[k].updated_at && e@.folder
                            == self.entries_view()[k].folder
                    &&& e@.id == id@
                    &&& spec_open_entry(self.key_view(), file->Some_0@) == Ok::<
                        Seq<char>,
                        VaultError,
                    >(e@.content)
                },
                Err(_) => true,
            },
            (self.is_unlocked() && (exists|k: int|
                0 <= k < self.entries_view().len() && (#[trigger] self.entries_view()[k]).id
                    == id@) && file is None) ==> r == Err::<Entry, VaultError>(
                VaultError::EntryContentMissing,
            ),
            match file {
                Some(fb) => {
                    &&& ((self.is_unlocked() && (exists|k: int|
                        0 <= k < self.entries_view().len() && (#[trigger] self.entries_view()[
                        k]).id == id@)) ==> (match spec_open_entry(self.key_view(), fb@) {
                        Ok(content) => r is Ok && r->Ok_0@.content == content,
                        Err(e) => r == Err::<Entry, VaultError>(e),
                    }))
                    &&& (forall|nonce: Seq<u8>, content: Seq<char>|
                        (self.is_unlocked() && (exists|k: int|
                            0 <= k < self.entries_view().len() && (
                            #[trigger] self.entries_view()[k]).id == id@) && nonce.len() == 12
                            && fb@ == #[trigger] sealed_entry_bytes(
                            self.key_view(),
                            nonce,
                            content,
                        )) ==> r is Ok && r->Ok_0@.content == content)
                },
                None => true,
            },
    {
        let v = match &self.session {
            None => {
                return Err(VaultError::VaultLocked);
            },
            Some(v) => v,
        };
        let id_s: String = id.to_owned();
        let n = v.entries.len();
        let mut i: usize = 0;
        while i < n
            invariant
                i <= n,
                n == v.entries@.len(),
                self.is_unlocked(),
                self.inv(),
                infos_view(v.entries@) == self.entries_view(),
                v.key@ == self.key_view(),
                v.key@.len() == 32,
                forall|j: int|
                    0 <= j < i ==> (#[trigger] infos_view(v.entries@)[j]).id != id@,
                id_s@ == id@,
            decreases n - i,
        {
            if v.entries[i].id == id_s {
                assert(infos_view(v.entries@)[i as int].id == id@);
                let row = clone_info(&v.entries[i]);
                let fb = match file {
                    None => {
                        return Err(VaultError::EntryContentMissing);
                    },
                    Some(fb) => fb,
                };
                let content = match open_entry(&v.key, &fb) {
                    Err(e) => {
                        return Err(e);
                    },
                    Ok(c) => c,
                };
                return Ok(
                    Entry {
                        id: id_s,
                        title: row.title,
                        content,
                        created_at: row.created_at,
                        updated_at: row.updated_at,
                        folder: row.folder,
                    },
                );
            }
            assert(infos_view(v.entries@)[i as int].id != id@);
            i = i + 1;
        }
        Err(VaultError::EntryNotFound)
    }
}

/// The empty metadata payload is far below the sealable ceiling.
proof fn lemma_empty_payload_small()
    ensures
        crate::codec::enc_meta_payload(
            crate::envelope::ENVELOPE_VERSION,
            Seq::<EntryInfoV>::empty(),
        ).len() <= 0x10_0000_0000,
{
    reveal_strlit("{\"version\":");
    reveal_strlit(",\"entries\":[");
    reveal_strlit("],\"text_encryption\":\"aes256_gcm\"}");
    crate::json::lemma_dec_rep_first_digit(1nat);
    assert(crate::json::dec_rep(1nat).len() == 1);
    assert(crate::codec::enc_entry_list(Seq::<EntryInfoV>::empty()).len() == 0);
}

/// Copies a byte vector.
fn clone_bytes(v: &Vec<u8>) -> (r: Vec<u8>)
    ensures
        r@ == v@,
{
    vstd::slice::slice_to_vec(v.as_slice())
}

impl VaultManager {
    /// Creates a record under a caller-chosen id: encrypts the content
    /// into a fresh entry envelope, appends the index row, and reseals the
    /// metadata envelope.  The two returned writes must land in that
    /// order, entry file first, so that a crash in between leaves an
    /// orphan file, never a dangling index row.  This is the deterministic
    /// core of `create_entry`, which draws the id.
    #[verifier::loop_isolation(false)]
    pub fn create_entry_with_id(
        &mut self,
        id: String,
        title: &str,
        content: &str,
        now: u64,
    ) -> (r: Result<(Entry, Vec<FileWrite>), VaultError>)
        requires
            old(self).inv(),
            now <= MAX_TIMESTAMP,
        ensures
            final(self).inv(),
            r is Err ==> *final(self) == *old(self),
            !old(self).is_unlocked() <==> r == Err::<(Entry, Vec<FileWrite>), VaultError>(
                VaultError::VaultLocked,
            ),
            (old(self).is_unlocked() && (exists|j: int|
                0 <= j < old(self).entries_view().len() && (#[trigger] old(self).entries_view()[
                j]).id == id@)) <==> r == Err::<(Entry, Vec<FileWrite>), VaultError>(
                VaultError::IdCollision,
            ),
            r is Err ==> r == Err::<(Entry, Vec<FileWrite>), VaultError>(VaultError::VaultLocked)
                || r == Err::<(Entry, Vec<FileWrite>), VaultError>(VaultError::IdCollision) || r
                == Err::<(Entry, Vec<FileWrite>), VaultError>(VaultError::EncryptionFailed),
            (old(self).is_unlocked() && (forall|j: int|
                0 <= j < old(self).entries_view().len() ==> (#[trigger] old(self).entries_view()[
                j]).id != id@) && encode_utf8(content@).len() <= 0x10_0000_0000 && 100
                + index_measure(old(self).entries_view()) + 200 + 6 * (encode_utf8(id@).len()
                + encode_utf8(title@).len()) <= 0x10_0000_0000) ==> r is Ok,
            r matches Ok(p) ==> {
                &&& p.0@.id == id@
                &&& final(self).is_unlocked()
                &&& p.0@.title == title@
                &&& p.0@.content == content@
                &&& p.0@.created_at == now
                &&& p.0@.updated_at == now
                &&& p.0@.folder is None
                &&& forall|j: int|
                    0 <= j < old(self).entries_view().len() ==> (#[trigger] old(
                        self,
                    ).entries_view()[j]).id != p.0@.id
                &&& final(self).entries_view() == old(self).entries_view().push(p.0.info_view())
                &&& final(self).last_saved_spec() == now
                &&& final(self).key_view() == old(self).key_view()
                &&& final(self).salt_view() == old(self).salt_view()
                &&& final(self).entries_dir_view() == old(self).entries_dir_view()
                &&& final(self).attachments_dir_view() == old(self).attachments_dir_view()
                &&& final(self).path_view() == old(self).path_view()
                &&& final(self).root_view() == old(self).root_view()
                &&& p.1@.len() == 2
                &&& p.1@[0].path@ == spec_entry_file_path(
                    old(self).entries_dir_view(),
                    p.0@.id,
                )
                &&& exists|nonce: Seq<u8>|
                    nonce.len() == 12 && p.1@[0].bytes@ == #[trigger] sealed_entry_bytes(
                        old(self).key_view(),
                        nonce,
                        content@,
                    )
                &&& p.1@[1].path@ == old(self).path_view()
                &&& exists|nonce: Seq<u8>|
                    nonce.len() == 12 && p.1@[1].bytes@ == #[trigger] sealed_vault_bytes(
                        old(self).key_view(),
                        old(self).salt_view(),
                        nonce,
                        final(self).entries_view(),
                        now,
                    )
            },
    {
        let v = match &self.session {
            None => {
                return Err(VaultError::VaultLocked);
            },
            Some(v) => v,
        };
        let entry = Entry {
            id,
            title: title.to_owned(),
            content: content.to_owned(),
            created_at: now,
            updated_at: now,
            folder: None,
        };
        let n = v.entries.len();
        let mut i: usize = 0;
        while i < n
            invariant
                i <= n,
                n == v.entries@.len(),
                self.is_unlocked(),
                infos_view(v.entries@) == self.entries_view(),
                entry@.id == entry.id@,
                forall|j: int|
                    0 <= j < i ==> (#[trigger] infos_view(v.entries@)[j]).id != entry.id@,
            decreases n - i,
        {
            if v.entries[i].id == entry.id {
                return Err(VaultError::IdCollision);
            }
            assert(infos_view(v.entries@)[i as int].id != entry.id@);
            i = i + 1;
        }
        let w1_bytes = match seal_entry(&v.key, content) {
            Err(e) => {
                return Err(e);
            },
            Ok(b) => b,
        };
        let mut new_entries = clone_infos(&v.entries);
        new_entries.push(entry.metadata());
        proof {
            assert(infos_view(new_entries@) =~= infos_view(v.entries@).push(entry.info_view()));
            lemma_push_fresh_unique(infos_view(v.entries@), entry.info_view());
        }
        proof {
            lemma_enc_meta_payload_measure(ENVELOPE_VERSION, infos_view(new_entries@));
            lemma_index_measure_push(infos_view(v.entries@), entry.info_view());
        }
        let w2_bytes = match seal_vault(&v.key, &v.salt, &new_entries, now) {
            Err(e) => {
                return Err(e);
            },
            Ok(b) => b,
        };
        let w1 = FileWrite {
            path: entry_file_path(v.entries_dir.as_str(), entry.id.as_str()),
            bytes: w1_bytes,
        };
        let w2 = FileWrite { path: v.path.clone(), bytes: w2_bytes };
        let new_sess = UnlockedVault {
            key: clone_bytes(&v.key),
            salt: clone_bytes(&v.salt),
            entries: new_entries,
            path: v.path.clone(),
            root: v.root.clone(),
            entries_dir: v.entries_dir.clone(),
            attachments_dir: v.attachments_dir.clone(),
            text_encryption: v.text_encryption,
            last_saved: now,
        };
        self.session = Some(new_sess);
        let mut writes: Vec<FileWrite> = Vec::new();
        writes.push(w1);
        writes.push(w2);
        Ok((entry, writes))
    }

    /// Creates a record: draws a fresh random id, then runs
    /// `create_entry_with_id`.  The draw is random, so success can promise
    /// at most "created, or the drawn id collided" — the deterministic
    /// core carries the exact promise for a given id.
    pub fn create_entry(
        &mut self,
        title: &str,
        content: &str,
        algorithm: Option<TextEncryption>,
        now: u64,
    ) -> (r: Result<(Entry, Vec<FileWrite>), VaultError>)
        requires
            old(self).inv(),
            now <= MAX_TIMESTAMP,
        ensures
            final(self).inv(),
            r is Err ==> *final(self) == *old(self),
            !old(self).is_unlocked() <==> r == Err::<(Entry, Vec<FileWrite>), VaultError>(
                VaultError::VaultLocked,
            ),
            r is Err ==> r == Err::<(Entry, Vec<FileWrite>), VaultError>(VaultError::VaultLocked)
                || r == Err::<(Entry, Vec<FileWrite>), VaultError>(VaultError::IdCollision) || r
                == Err::<(Entry, Vec<FileWrite>), VaultError>(VaultError::EncryptionFailed),
            (old(self).is_unlocked() && encode_utf8(content@).len() <= 0x10_0000_0000 && 100
                + index_measure(old(self).entries_view()) + 200 + 6 * (36 + encode_utf8(
                title@,
            ).len()) <= 0x10_0000_0000) ==> (r is Ok || r == Err::<
                (Entry, Vec<FileWrite>),
                VaultError,
            >(VaultError::IdCollision)),
            r == Err::<(Entry, Vec<FileWrite>), VaultError>(VaultError::IdCollision) ==> old(
                self,
            ).entries_view().len() > 0,
            r matches Ok(p) ==> {
                &&& p.0@.id.len() == 36
                &&& final(self).is_unlocked()
                &&& p.0@.title == title@
                &&& p.0@.content == content@
                &&& p.0@.created_at == now
                &&& p.0@.updated_at == now
                &&& p.0@.folder is None
                &&& forall|j: int|
                    0 <= j < old(self).entries_view().len() ==> (#[trigger] old(
                        self,
                    ).entries_view()[j]).id != p.0@.id
                &&& final(self).entries_view() == old(self).entries_view().push(p.0.info_view())
                &&& final(self).last_saved_spec() == now
                &&& final(self).key_view() == old(self).key_view()
                &&& final(self).salt_view() == old(self).salt_view()
                &&& final(self).entries_dir_view() == old(self).entries_dir_view()
                &&& final(self).attachments_dir_view() == old(self).attachments_dir_view()
                &&& final(self).path_view() == old(self).path_view()
                &&& final(self).root_view() == old(self).root_view()
                &&& p.1@.len() == 2
                &&& p.1@[0].path@ == spec_entry_file_path(
                    old(self).entries_dir_view(),
                    p.0@.id,
                )
                &&& exists|nonce: Seq<u8>|
                    nonce.len() == 12 && p.1@[0].bytes@ == #[trigger] sealed_entry_bytes(
                        old(self).key_view(),
                        nonce,
                        content@,
                    )
                &&& p.1@[1].path@ == old(self).path_view()
                &&& exists|nonce: Seq<u8>|
                    nonce.len() == 12 && p.1@[1].bytes@ == #[trigger] sealed_vault_bytes(
                        old(self).key_view(),
                        old(self).salt_view(),
                        nonce,
                        final(self).entries_view(),
                        now,
                    )
            },
    {
        match algorithm {
            None => (),
            Some(TextEncryption::Aes256Gcm) => (),
        }
        let id = new_uuid_string();
        let ghost gid = id@;
        proof {
            assert(vstd::utf8::is_ascii_chars(gid)) by {
                assert forall|i: int| 0 <= i < gid.len() implies '\0' <= #[trigger] gid[i]
                    <= '\u{7f}' by {
                    assert(' ' <= gid[i] <= '~');
                }
            }
            vstd::utf8::is_ascii_chars_encode_utf8(gid);
            assert(encode_utf8(gid).len() == 36);
        }
        let r = self.create_entry_with_id(id, title, content, now);
        r
    }

    /// Replaces a record's title, folder and content; `created_at` is kept
    /// and `updated_at` becomes the call time.  Entry file first, then the
    /// metadata envelope, as in creation.
    #[verifier::loop_isolation(false)]
    pub fn update_entry(&mut self, entry: Entry, now: u64) -> (r: Result<
        (Entry, Vec<FileWrite>),
        VaultError,
    >)
        requires
            old(self).inv(),
            now <= MAX_TIMESTAMP,
        ensures
            final(self).inv(),
            r is Err ==> *final(self) == *old(self),
            !old(self).is_unlocked() <==> r == Err::<(Entry, Vec<FileWrite>), VaultError>(
                VaultError::VaultLocked,
            ),
            old(self).is_unlocked() && (forall|j: int|
                0 <= j < old(self).entries_view().len() ==> (#[trigger] old(self).entries_view()[
                j]).id != entry@.id) ==> r == Err::<(Entry, Vec<FileWrite>), VaultError>(
                VaultError::EntryNotFound,
            ),
            r is Err ==> r == Err::<(Entry, Vec<FileWrite>), VaultError>(VaultError::VaultLocked)
                || r == Err::<(Entry, Vec<FileWrite>), VaultError>(VaultError::EntryNotFound)
                || r == Err::<(Entry, Vec<FileWrite>), VaultError>(VaultError::EncryptionFailed),
            (old(self).is_unlocked() && (exists|j: int|
                0 <= j < old(self).entries_view().len() && (#[trigger] old(self).entries_view()[
                j]).id == entry@.id) && encode_utf8(entry@.content).len() <= 0x10_0000_0000 && 100
                + index_measure(old(self).entries_view()) + row_measure(entry.info_view())
                <= 0x10_0000_0000) ==> r is Ok,
            r matches Ok(p) ==> {
                &&& final(self).is_unlocked()
                &&& exists|k: int|
                    {
                        &&& 0 <= k < old(self).entries_view().len()
                        &&& (#[trigger] old(self).entries_view()[k]).id == entry@.id
                        &&& p.0@.created_at == old(self).entries_view()[k].created_at
                        &&& final(self).entries_view() == old(self).entries_view().update(
                            k,
                            p.0.info_view(),
                        )
                    }
                &&& p.0@.id == entry@.id
                &&& p.0@.title == entry@.title
                &&& p.0@.content == entry@.content
                &&& p.0@.updated_at == now
                &&& p.0@.folder == entry@.folder
                &&& final(self).last_saved_spec() == now
                &&& final(self).key_view() == old(self).key_view()
                &&& final(self).salt_view() == old(self).salt_view()
                &&& final(self).path_view() == old(self).path_view()
                &&& final(self).root_view() == old(self).root_view()
                &&& final(self).entries_dir_view() == old(self).entries_dir_view()
                &&& final(self).attachments_dir_view() == old(self).attachments_dir_view()
                &&& p.1@.len() == 2
                &&& p.1@[0].path@ == spec_entry_file_path(
                    old(self).entries_dir_view(),
                    entry@.id,
                )
                &&& exists|nonce: Seq<u8>|
                    nonce.len() == 12 && p.1@[0].bytes@ == #[trigger] sealed_entry_bytes(
                        old(self).key_view(),
                        nonce,
                        entry@.content,
                    )
                &&& p.1@[1].path@ == old(self).path_view()
                &&& exists|nonce: Seq<u8>|
                    nonce.len() == 12 && p.1@[1].bytes@ == #[trigger] sealed_vault_bytes(
                        old(self).key_view(),
                        old(self).salt_view(),
                        nonce,
                        final(self).entries_view(),
                        now,
                    )
            },
    {
        let v = match &self.session {
            None => {
                return Err(VaultError::VaultLocked);
            },
            Some(v) => v,
        };
        let n = v.entries.len();
        let mut i: usize = 0;
        let mut found: Option<usize> = None;
        while i < n && found.is_none()
            invariant
                i <= n,
                n == v.entries@.len(),
                match found {
                    Some(k) => k < n && infos_view(v.entries@)[k as int].id == entry@.id,
                    None => forall|j: int|
                        0 <= j < i ==> (#[trigger] infos_view(v.entries@)[j]).id != entry@.id,
                },
            decreases n - i + (if found is Some {
                0int
            } else {
                1int
            }),
        {
            if v.entries[i].id == entry.id {
                assert(infos_view(v.entries@)[i as int].id == entry@.id);
                found = Some(i);
            } else {
                assert(infos_view(v.entries@)[i as int].id != entry@.id);
                i = i + 1;
            }
        }
        let k = match found {
            None => {
                return Err(VaultError::EntryNotFound);
            },
            Some(k) => k,
        };
        let row = clone_info(&v.entries[k]);
        let updated = Entry {
            id: entry.id,
            title: entry.title,
            content: entry.content,
            created_at: row.created_at,
            updated_at: now,
            folder: entry.folder,
        };
        let w1_bytes = match seal_entry(&v.key, updated.content.as_str()) {
            Err(e) => {
                return Err(e);
            },
            Ok(b) => b,
        };
        let mut new_entries: Vec<EntryInfo> = Vec::new();
        let mut j: usize = 0;
        while j < n
            invariant
                j <= n,
                n == v.entries@.len(),
                k < n,
                new_entries@.len() == j,
                forall|t: int|
                    0 <= t < j && t != k ==> #[trigger] new_entries@[t]@ == infos_view(
                        v.entries@,
                    )[t],
                k < j ==> new_entries@[k as int]@ == updated.info_view(),
            decreases n - j,
        {
            if j == k {
                new_entries.push(updated.metadata());
            } else {
                new_entries.push(clone_info(&v.entries[j]));
            }
            j = j + 1;
        }
        proof {
            assert(infos_view(new_entries@) =~= infos_view(v.entries@).update(
                k as int,
                updated.info_view(),
            ));
            lemma_enc_meta_payload_measure(ENVELOPE_VERSION, infos_view(new_entries@));
            lemma_index_measure_update(infos_view(v.entries@), k as int, updated.info_view());
            assert(row_measure(updated.info_view()) == row_measure(entry.info_view()));
            lemma_update_same_id_unique(
                infos_view(v.entries@),
                k as int,
                updated.info_view(),
            );
        }
        let w2_bytes = match seal_vault(&v.key, &v.salt, &new_entries, now) {
            Err(e) => {
                return Err(e);
            },
            Ok(b) => b,
        };
        let w1 = FileWrite {
            path: entry_file_path(v.entries_dir.as_str(), updated.id.as_str()),
            bytes: w1_bytes,
        };
        let w2 = FileWrite { path: v.path.clone(), bytes: w2_bytes };
        let ghost nev = infos_view(new_entries@);
        let ghost okey = v.key@;
        let ghost osalt = v.salt@;
        let new_sess = UnlockedVault {
            key: clone_bytes(&v.key),
            salt: clone_bytes(&v.salt),
            entries: new_entries,
            path: v.path.clone(),
            root: v.root.clone(),
            entries_dir: v.entries_dir.clone(),
            attachments_dir: v.attachments_dir.clone(),
            text_encryption: v.text_encryption,
            last_saved: now,
        };
        self.session = Some(new_sess);
        proof {
            let kk = k as int;
            assert((old(self).entries_view()[kk]).id == entry@.id);
            assert(final(self).entries_view() == old(self).entries_view().update(
                kk,
                updated.info_view(),
            ));
            assert(updated@.created_at == old(self).entries_view()[kk].created_at);
            let n1 = choose|nonce: Seq<u8>|
                nonce.len() == 12 && w1.bytes@ == #[trigger] sealed_entry_bytes(
                    okey,
                    nonce,
                    entry@.content,
                );
            assert(w1.bytes@ == sealed_entry_bytes(old(self).key_view(), n1, entry@.content));
            let n2 = choose|nonce: Seq<u8>|
                nonce.len() == 12 && w2.bytes@ == #[trigger] sealed_vault_bytes(
                    okey,
                    osalt,
                    nonce,
                    nev,
                    now,
                );
            assert(w2.bytes@ == sealed_vault_bytes(
                old(self).key_view(),
                old(self).salt_view(),
                n2,
                final(self).entries_view(),
                now,
            ));
        }
        let mut writes: Vec<FileWrite> = Vec::new();
        writes.push(w1);
        writes.push(w2);
        Ok((updated, writes))
    }

    /// Deletes a record: drops its index rows, reseals the metadata
    /// envelope (the returned write), and names the entry file to remove
    /// afterwards (the returned path); a file already absent is tolerated
    /// by the caller.
    #[verifier::loop_isolation(false)]
    pub fn delete_entry(&mut self, id: &str, now: u64) -> (r: Result<
        (FileWrite, String),
        VaultError,
    >)
        requires
            old(self).inv(),
            now <= MAX_TIMESTAMP,
        ensures
            final(self).inv(),
            r is Err ==> *final(self) == *old(self),
            !old(self).is_unlocked() <==> r == Err::<(FileWrite, String), VaultError>(
                VaultError::VaultLocked,
            ),
            old(self).is_unlocked() && (forall|j: int|
                0 <= j < old(self).entries_view().len() ==> (#[trigger] old(self).entries_view()[
                j]).id != id@) ==> r == Err::<(FileWrite, String), VaultError>(
                VaultError::EntryNotFound,
            ),
            r is Err ==> r == Err::<(FileWrite, String), VaultError>(VaultError::VaultLocked) || r
                == Err::<(FileWrite, String), VaultError>(VaultError::EntryNotFound) || r == Err::<
                (FileWrite, String),
                VaultError,
            >(VaultError::EncryptionFailed),
            (old(self).is_unlocked() && (exists|j: int|
                0 <= j < old(self).entries_view().len() && (#[trigger] old(self).entries_view()[
                j]).id == id@) && 100 + index_measure(old(self).entries_view())
                <= 0x10_0000_0000) ==> r is Ok,
            r matches Ok(p) ==> {
                &&& final(self).is_unlocked()
                &&& final(self).entries_view() == remove_id(old(self).entries_view(), id@)
                &&& final(self).last_saved_spec() == now
                &&& final(self).key_view() == old(self).key_view()
                &&& final(self).salt_view() == old(self).salt_view()
                &&& final(self).path_view() == old(self).path_view()
                &&& final(self).root_view() == old(self).root_view()
                &&& final(self).entries_dir_view() == old(self).entries_dir_view()
                &&& final(self).attachments_dir_view() == old(self).attachments_dir_view()
                &&& p.0.path@ == old(self).path_view()
                &&& exists|nonce: Seq<u8>|
                    nonce.len() == 12 && p.0.bytes@ == #[trigger] sealed_vault_bytes(
                        old(self).key_view(),
                        old(self).salt_view(),
                        nonce,
                        final(self).entries_view(),
                        now,
                    )
                &&& p.1@ == spec_entry_file_path(old(self).entries_dir_view(), id@)
            },
    {
        let v = match &self.session {
            None => {
                return Err(VaultError::VaultLocked);
            },
            Some(v) => v,
        };
        let id_s: String = id.to_owned();
        let n = v.entries.len();
        let mut new_entries: Vec<EntryInfo> = Vec::new();
        let mut removed: bool = false;
        let mut i: usize = 0;
        while i < n
            invariant
                i <= n,
                n == v.entries@.len(),
                self.is_unlocked(),
                self.inv(),
                infos_view(v.entries@) == self.entries_view(),
                id_s@ == id@,
                infos_view(new_entries@) == remove_id(
                    infos_view(v.entries@).take(i as int),
                    id@,
                ),
                removed == !(forall|j: int|
                    0 <= j < i ==> (#[trigger] infos_view(v.entries@)[j]).id != id@),
            decreases n - i,
        {
            let ghost pre = infos_view(new_entries@);
            let ghost taken = infos_view(v.entries@).take(i + 1);
            proof {
                assert(taken.drop_last() =~= infos_view(v.entries@).take(i as int));
                assert(taken.last() == infos_view(v.entries@)[i as int]);
            }
            if v.entries[i].id == id_s {
                assert(infos_view(v.entries@)[i as int].id == id@);
                removed = true;
                proof {
                    assert(infos_view(new_entries@) =~= remove_id(taken, id@));
                }
            } else {
                assert(infos_view(v.entries@)[i as int].id != id@);
                new_entries.push(clone_info(&v.entries[i]));
                proof {
                    assert(infos_view(new_entries@) =~= pre + seq![infos_view(v.entries@)[
                        i as int]]);
                    assert(infos_view(new_entries@) =~= remove_id(taken, id@));
                }
            }
            i = i + 1;
        }
        proof {
            assert(infos_view(v.entries@).take(n as int) =~= infos_view(v.entries@));
        }
        if !removed {
            return Err(VaultError::EntryNotFound);
        }
        proof {
            lemma_enc_meta_payload_measure(ENVELOPE_VERSION, infos_view(new_entries@));
            lemma_index_measure_remove_id(infos_view(v.entries@), id@);
            lemma_remove_id_unique(infos_view(v.entries@), id@);
        }
        let w_bytes = match seal_vault(&v.key, &v.salt, &new_entries, now) {
            Err(e) => {
                return Err(e);
            },
            Ok(b) => b,
        };
        proof {
            lemma_remove_id_wf(infos_view(v.entries@), id@);
        }
        let remove_path = entry_file_path(v.entries_dir.as_str(), id_s.as_str());
        let w = FileWrite { path: v.path.clone(), bytes: w_bytes };
        let ghost nev = infos_view(new_entries@);
        let ghost okey = v.key@;
        let ghost osalt = v.salt@;
        let new_sess = UnlockedVault {
            key: clone_bytes(&v.key),
            salt: clone_bytes(&v.salt),
            entries: new_entries,
            path: v.path.clone(),
            root: v.root.clone(),
            entries_dir: v.entries_dir.clone(),
            attachments_dir: v.attachments_dir.clone(),
            text_encryption: v.text_encryption,
            last_saved: now,
        };
        self.session = Some(new_sess);
        proof {
            let n2 = choose|nonce: Seq<u8>|
                nonce.len() == 12 && w.bytes@ == #[trigger] sealed_vault_bytes(
                    okey,
                    osalt,
                    nonce,
                    nev,
                    now,
                );
            assert(w.bytes@ == sealed_vault_bytes(
                old(self).key_view(),
                old(self).salt_view(),
                n2,
                final(self).entries_view(),
                now,
            ));
        }
        Ok((w, remove_path))
    }
}

/// Removal keeps every kept row well formed.
proof fn lemma_remove_id_wf(es: Seq<EntryInfoV>, id: Seq<char>)
    requires
        entries_wf(es),
    ensures
        entries_wf(remove_id(es, id)),
{
    lemma_remove_id_absent(es, id);
    assert forall|j: int| 0 <= j < remove_id(es, id).len() implies entry_info_wf(
        #[trigger] remove_id(es, id)[j],
    ) by {
        let i = choose|i: int| 0 <= i < es.len() && es[i] == remove_id(es, id)[j];
        assert(entry_info_wf(es[i]));
    }
}

/// The inferred extension for optional name and MIME strings.
pub open spec fn infer_ext_of(name: Option<String>, mime: Option<String>) -> Seq<u8> {
    spec_infer_ext(
        match name {
            Some(nm) => Some(encode_utf8(nm@)),
            None => None,
        },
        match mime {
            Some(mm) => Some(encode_utf8(mm@)),
            None => None,
        },
    )
}

/// The views of a vector of records.
pub open spec fn entries_view_full(v: Seq<Entry>) -> Seq<EntryV> {
    Seq::new(v.len(), |i: int| v[i]@)
}

/// Inserts a record into a descending-sorted list, after ties.
pub open spec fn insert_desc_e(sorted: Seq<EntryV>, e: EntryV) -> Seq<EntryV>
    decreases sorted.len(),
{
    if sorted.len() == 0 {
        seq![e]
    } else if sorted[0].updated_at >= e.updated_at {
        seq![sorted[0]] + insert_desc_e(sorted.drop_first(), e)
    } else {
        seq![e] + sorted
    }
}

/// Records sorted by `updated_at` descending, insertion order kept on ties.
pub open spec fn sort_desc_e(es: Seq<EntryV>) -> Seq<EntryV>
    decreases es.len(),
{
    if es.len() == 0 {
        Seq::empty()
    } else {
        insert_desc_e(sort_desc_e(es.drop_last()), es.last())
    }
}

/// Sorted by `updated_at`, newest first.
pub open spec fn sorted_desc_e(s: Seq<EntryV>) -> bool {
    forall|i: int, j: int| 0 <= i < j < s.len() ==> s[i].updated_at >= s[j].updated_at
}

proof fn lemma_insert_desc_e_sorted(sorted: Seq<EntryV>, e: EntryV)
    requires
        sorted_desc_e(sorted),
    ensures
        sorted_desc_e(insert_desc_e(sorted, e)),
        insert_desc_e(sorted, e).len() == sorted.len() + 1,
        forall|i: int|
            0 <= i < insert_desc_e(sorted, e).len() ==> (#[trigger] insert_desc_e(sorted, e)[
            i]).updated_at <= (if sorted.len() == 0 || e.updated_at >= sorted[0].updated_at {
                e.updated_at
            } else {
                sorted[0].updated_at
            }),
    decreases sorted.len(),
{
    let r = insert_desc_e(sorted, e);
    if sorted.len() == 0 {
        assert(r =~= seq![e]);
    } else if sorted[0].updated_at >= e.updated_at {
        assert(sorted_desc_e(sorted.drop_first())) by {
            assert forall|i: int, j: int|
                0 <= i < j < sorted.drop_first().len() implies sorted.drop_first()[i].updated_at
                >= sorted.drop_first()[j].updated_at by {
                assert(sorted[i + 1].updated_at >= sorted[j + 1].updated_at);
            }
        }
        assert forall|i: int| 0 <= i < sorted.drop_first().len() implies (
        #[trigger] sorted.drop_first()[i]).updated_at <= sorted[0].updated_at by {
            assert(sorted[i + 1].updated_at <= sorted[0].updated_at);
        }
        lemma_insert_desc_e_sorted(sorted.drop_first(), e);
        let inner = insert_desc_e(sorted.drop_first(), e);
        assert(r == seq![sorted[0]] + inner);
        assert forall|i: int, j: int| 0 <= i < j < r.len() implies r[i].updated_at
            >= r[j].updated_at by {
            if i == 0 {
                assert(r[j] == inner[j - 1]);
            } else {
                assert(r[i] == inner[i - 1] && r[j] == inner[j - 1]);
            }
        }
        assert forall|i: int| 0 <= i < r.len() implies (#[trigger] r[i]).updated_at <= sorted[
            0].updated_at by {
            if i > 0 {
                assert(r[i] == inner[i - 1]);
            }
        }
    } else {
        assert(r == seq![e] + sorted);
        assert forall|i: int, j: int| 0 <= i < j < r.len() implies r[i].updated_at
            >= r[j].updated_at by {
            if i == 0 {
                assert(r[j] == sorted[j - 1]);
                if j >= 2 {
                    assert(sorted[0].updated_at >= sorted[j - 1].updated_at);
                }
            } else {
                assert(r[i] == sorted[i - 1] && r[j] == sorted[j - 1]);
            }
        }
        assert forall|i: int| 0 <= i < r.len() implies (#[trigger] r[i]).updated_at
            <= e.updated_at by {
            if i > 0 {
                assert(r[i] == sorted[i - 1]);
                if i - 1 > 0 {
                    assert(sorted[0].updated_at >= sorted[i - 1].updated_at);
                }
            }
        }
    }
}

proof fn lemma_insert_desc_e_at(sorted: Seq<EntryV>, e: EntryV, k: int)
    requires
        sorted_desc_e(sorted),
        0 <= k <= sorted.len(),
        forall|i: int| 0 <= i < k ==> (#[trigger] sorted[i]).updated_at >= e.updated_at,
        k < sorted.len() ==> sorted[k].updated_at < e.updated_at,
    ensures
        insert_desc_e(sorted, e) == sorted.subrange(0, k) + seq![e] + sorted.subrange(
            k,
            sorted.len() as int,
        ),
    decreases k,
{
    if k == 0 {
        if sorted.len() == 0 {
            assert(insert_desc_e(sorted, e) =~= sorted.subrange(0, 0) + seq![e]
                + sorted.subrange(0, 0));
        } else {
            assert(sorted[0].updated_at < e.updated_at);
            assert(seq![e] + sorted =~= sorted.subrange(0, 0) + seq![e] + sorted.subrange(
                0,
                sorted.len() as int,
            ));
        }
    } else {
        assert(sorted[0].updated_at >= e.updated_at);
        assert(sorted_desc_e(sorted.drop_first())) by {
            assert forall|i: int, j: int|
                0 <= i < j < sorted.drop_first().len() implies sorted.drop_first()[i].updated_at
                >= sorted.drop_first()[j].updated_at by {
                assert(sorted[i + 1].updated_at >= sorted[j + 1].updated_at);
            }
        }
        assert forall|i: int| 0 <= i < k - 1 implies (#[trigger] sorted.drop_first()[
        i]).updated_at >= e.updated_at by {
            assert(sorted[i + 1].updated_at >= e.updated_at);
        }
        if k - 1 < sorted.drop_first().len() {
            assert(sorted.drop_first()[k - 1] == sorted[k]);
        }
        lemma_insert_desc_e_at(sorted.drop_first(), e, k - 1);
        assert(seq![sorted[0]] + (sorted.drop_first().subrange(0, k - 1) + seq![e]
            + sorted.drop_first().subrange(k - 1, sorted.drop_first().len() as int))
            =~= sorted.subrange(0, k) + seq![e] + sorted.subrange(k, sorted.len() as int));
    }
}

/// Copies one record.
pub fn clone_entry(e: &Entry) -> (r: Entry)
    ensures
        r@ == e@,
{
    Entry {
        id: e.id.clone(),
        title: e.title.clone(),
        content: e.content.clone(),
        created_at: e.created_at,
        updated_at: e.updated_at,
        folder: clone_opt_string(&e.folder),
    }
}

/// Sorts records by `updated_at` descending, stably.
#[verifier::loop_isolation(false)]
pub fn sort_entries(v: &Vec<Entry>) -> (r: Vec<Entry>)
    ensures
        entries_view_full(r@) == sort_desc_e(entries_view_full(v@)),
{
    let n = v.len();
    let mut out: Vec<Entry> = Vec::new();
    let mut i: usize = 0;
    proof {
        assert(entries_view_full(v@).take(0) =~= Seq::<EntryV>::empty());
        assert(entries_view_full(out@) =~= sort_desc_e(entries_view_full(v@).take(0)));
    }
    while i < n
        invariant
            i <= n,
            entries_view_full(out@) == sort_desc_e(entries_view_full(v@).take(i as int)),
            sorted_desc_e(entries_view_full(out@)),
        decreases n - i,
    {
        let e = clone_entry(&v[i]);
        let m = out.len();
        let mut k: usize = 0;
        while k < m && out[k].updated_at >= e.updated_at
            invariant
                k <= m,
                forall|t: int|
                    0 <= t < k ==> (#[trigger] entries_view_full(out@)[t]).updated_at
                        >= e@.updated_at,
            decreases m - k,
        {
            assert(entries_view_full(out@)[k as int].updated_at >= e@.updated_at);
            k = k + 1;
        }
        proof {
            if k < m {
                assert(entries_view_full(out@)[k as int].updated_at < e@.updated_at);
            }
            lemma_insert_desc_e_at(entries_view_full(out@), e@, k as int);
        }
        let ghost before = entries_view_full(out@);
        out.insert(k, e);
        proof {
            assert(entries_view_full(out@) =~= before.subrange(0, k as int) + seq![v@[i as int]@]
                + before.subrange(k as int, before.len() as int));
            assert(entries_view_full(v@).take(i + 1).drop_last() =~= entries_view_full(v@).take(
                i as int,
            ));
            assert(entries_view_full(v@).take(i + 1).last() == v@[i as int]@);
            assert(entries_view_full(out@) == sort_desc_e(entries_view_full(v@).take(i + 1)));
            lemma_insert_desc_e_sorted(before, v@[i as int]@);
        }
        i = i + 1;
    }
    proof {
        assert(entries_view_full(v@).take(n as int) =~= entries_view_full(v@));
    }
    out
}

/// A timestamp as the export shows it: RFC 3339, or nothing when it
/// cannot be rendered.
pub open spec fn render_ts(ts: u64) -> Seq<char> {
    if ts <= MAX_TIMESTAMP {
        rfc3339_of(ts)
    } else {
        Seq::empty()
    }
}

/// One export block: title heading, creation and update stamps, content.
pub open spec fn render_entry_text(e: EntryV) -> Seq<char> {
    "# "@ + e.title + "\n创建："@ + render_ts(e.created_at) + "\n更新："@ + render_ts(
        e.updated_at,
    ) + "\n\n"@ + e.content + "\n"@
}

/// Export blocks joined by a separator line.
pub open spec fn render_blocks(es: Seq<EntryV>) -> Seq<char>
    decreases es.len(),
{
    if es.len() == 0 {
        Seq::empty()
    } else if es.len() == 1 {
        render_entry_text(es[0])
    } else {
        render_entry_text(es[0]) + "\n---\n\n"@ + render_blocks(es.drop_first())
    }
}

proof fn lemma_render_step(es: Seq<EntryV>, i: int)
    requires
        0 <= i < es.len(),
    ensures
        i == 0 ==> render_blocks(es.take(1)) == render_entry_text(es[0]),
        i > 0 ==> render_blocks(es.take(i + 1)) == render_blocks(es.take(i)) + "\n---\n\n"@
            + render_entry_text(es[i]),
    decreases i,
{
    if i == 0 {
        assert(es.take(1).len() == 1);
        assert(es.take(1)[0] == es[0]);
    } else {
        lemma_render_step(es.drop_first(), i - 1);
        let a = es.take(i + 1);
        assert(a.len() >= 2);
        assert(a[0] == es[0]);
        assert(a.drop_first() =~= es.drop_first().take(i));
        assert(es.take(i).len() >= 1);
        assert(es.take(i)[0] == es[0]);
        assert(es.take(i).drop_first() =~= es.drop_first().take(i - 1));
        assert(es.drop_first()[i - 1] == es[i]);
        if i == 1 {
            assert(render_blocks(a) == render_entry_text(es[0]) + "\n---\n\n"@ + render_blocks(
                es.drop_first().take(1),
            ));
            assert(render_blocks(a) =~= render_blocks(es.take(1)) + "\n---\n\n"@
                + render_entry_text(es[1]));
        } else {
            assert(render_blocks(a) == render_entry_text(es[0]) + "\n---\n\n"@ + render_blocks(
                a.drop_first(),
            ));
            assert(render_blocks(es.take(i)) == render_entry_text(es[0]) + "\n---\n\n"@
                + render_blocks(es.drop_first().take(i - 1)));
            assert(render_blocks(a) =~= render_blocks(es.take(i)) + "\n---\n\n"@
                + render_entry_text(es[i]));
        }
    }
}

/// Appends one export block.
fn render_one(out: &mut String, e: &Entry)
    ensures
        final(out)@ == old(out)@ + render_entry_text(e@),
{
    out.append("# ");
    out.append(e.title.as_str());
    out.append("\n创建：");
    if e.created_at <= MAX_TIMESTAMP {
        match rfc3339_utc(e.created_at) {
            Some(s) => out.append(s.as_str()),
            None => {
                proof {
                    assert(false);
                }
            },
        }
    }
    out.append("\n更新：");
    if e.updated_at <= MAX_TIMESTAMP {
        match rfc3339_utc(e.updated_at) {
            Some(s) => out.append(s.as_str()),
            None => {
                proof {
                    assert(false);
                }
            },
        }
    }
    out.append("\n\n");
    out.append(e.content.as_str());
    out.append("\n");
    assert(final(out)@ =~= old(out)@ + render_entry_text(e@));
}

impl VaultManager {
    /// Renders the decrypted records as one plaintext document: sorted by
    /// `updated_at` descending, one block per record, blocks joined by a
    /// separator.  The caller decrypts the records first (`load_entry`).
    #[verifier::loop_isolation(false)]
    pub fn export_plaintext(&self, entries: Vec<Entry>) -> (r: Result<String, VaultError>)
        ensures
            match r {
                Ok(s) => self.is_unlocked() && s@ == render_blocks(
                    sort_desc_e(entries_view_full(entries@)),
                ),
                Err(e) => !self.is_unlocked() && e == VaultError::VaultLocked,
            },
    {
        match &self.session {
            None => {
                return Err(VaultError::VaultLocked);
            },
            Some(_) => (),
        }
        let sorted = sort_entries(&entries);
        let ghost evs = entries_view_full(sorted@);
        let mut out = String::new();
        let n = sorted.len();
        let mut i: usize = 0;
        while i < n
            invariant
                i <= n,
                out@ == render_blocks(evs.take(i as int)) + (if 0 < i && i < n {
                    "\n---\n\n"@
                } else {
                    Seq::<char>::empty()
                }),
            decreases n - i,
        {
            render_one(&mut out, &sorted[i]);
            proof {
                lemma_render_step(evs, i as int);
            }
            i = i + 1;
            if i < n {
                out.append("\n---\n\n");
            }
            proof {
                assert(out@ =~= render_blocks(evs.take(i as int)) + (if 0 < i && i < n {
                    "\n---\n\n"@
                } else {
                    Seq::<char>::empty()
                }));
            }
        }
        proof {
            assert(evs.take(n as int) =~= evs);
            assert(out@ =~= render_blocks(evs));
        }
        Ok(out)
    }

    /// Where a stored attachment path points on disk.
    pub fn attachment_abs_path(&self, path: &str) -> (r: Result<String, VaultError>)
        ensures
            match r {
                Ok(p) => self.is_unlocked() && p@ == spec_resolve(self.root_view(), path@),
                Err(e) => !self.is_unlocked() && e == VaultError::VaultLocked,
            },
    {
        match &self.session {
            None => Err(VaultError::VaultLocked),
            Some(v) => Ok(resolve_attachment_path(v.root.as_str(), path)),
        }
    }

    /// Encrypts attachment bytes into a fresh year/month-bucketed file.
    /// Returns the vault-relative path and the write to perform.
    pub fn store_image_bytes(
        &self,
        name: Option<String>,
        mime: Option<String>,
        data: Vec<u8>,
        now: u64,
    ) -> (r: Result<(String, FileWrite), VaultError>)
        requires
            self.inv(),
            now <= MAX_TIMESTAMP,
        ensures
            !self.is_unlocked() <==> r == Err::<(String, FileWrite), VaultError>(
                VaultError::VaultLocked,
            ),
            self.is_unlocked() && data@.len() == 0 <==> r == Err::<(String, FileWrite), VaultError>(
                VaultError::EmptyAttachment,
            ),
            r matches Ok(p) ==> {
                &&& exists|id: Seq<char>|
                    id.len() == 36 && encode_utf8(p.0@) == #[trigger] attachment_rel_bytes(
                        year_month_of(now).0 as u64,
                        year_month_of(now).1,
                        id,
                        infer_ext_of(name, mime),
                    )
                &&& p.1.path@ == spec_resolve(self.root_view(), p.0@)
                &&& exists|iv: Seq<u8>|
                    iv.len() == 16 && p.1.bytes@ == #[trigger] attachment_bytes(
                        self.key_view(),
                        iv,
                        data@,
                    )
                &&& p.1.bytes@.len() == 35 + data@.len()
            },
            self.is_unlocked() && data@.len() > 0 ==> r is Ok,
    {
        let v = match &self.session {
            None => {
                return Err(VaultError::VaultLocked);
            },
            Some(v) => v,
        };
        if data.len() == 0 {
            return Err(VaultError::EmptyAttachment);
        }
        let ext = infer_image_extension(
            match &name {
                Some(nm) => Some(nm),
                None => None,
            },
            match &mime {
                Some(mm) => Some(mm),
                None => None,
            },
        );
        let (y, m) = utc_year_month(now);
        let year: u64 = y as u64;
        let id = new_uuid_string();
        proof {
            assert(vstd::utf8::is_ascii_chars(id@)) by {
                assert forall|i: int| 0 <= i < id@.len() implies '\0' <= #[trigger] id@[i]
                    <= '\u{7f}' by {
                    assert(' ' <= id@[i] <= '~');
                }
            }
        }
        let rel = attachment_rel_path(year, m, id.as_str(), &ext);
        let abs = resolve_attachment_path(v.root.as_str(), rel.as_str());
        let enc = encrypt_image_data(&v.key, data);
        let fw = FileWrite { path: abs, bytes: enc };
        proof {
            assert(ext@ == infer_ext_of(name, mime));
            assert(year == year_month_of(now).0 as u64);
            assert(m == year_month_of(now).1);
            assert(encode_utf8(rel@) == attachment_rel_bytes(
                year_month_of(now).0 as u64,
                year_month_of(now).1,
                id@,
                infer_ext_of(name, mime),
            ));
        }
        Ok((rel, fw))
    }

    /// Encrypts an image read from a source file; the extension comes
    /// from the source path alone.
    pub fn store_image(&self, source: String, data: Vec<u8>, now: u64) -> (r: Result<
        (String, FileWrite),
        VaultError,
    >)
        requires
            self.inv(),
            now <= MAX_TIMESTAMP,
        ensures
            !self.is_unlocked() <==> r == Err::<(String, FileWrite), VaultError>(
                VaultError::VaultLocked,
            ),
            self.is_unlocked() && data@.len() == 0 <==> r == Err::<(String, FileWrite), VaultError>(
                VaultError::EmptyAttachment,
            ),
            r matches Ok(p) ==> {
                &&& exists|id: Seq<char>|
                    id.len() == 36 && encode_utf8(p.0@) == #[trigger] attachment_rel_bytes(
                        year_month_of(now).0 as u64,
                        year_month_of(now).1,
                        id,
                        infer_ext_of(Some(source), None),
                    )
                &&& p.1.path@ == spec_resolve(self.root_view(), p.0@)
                &&& exists|iv: Seq<u8>|
                    iv.len() == 16 && p.1.bytes@ == #[trigger] attachment_bytes(
                        self.key_view(),
                        iv,
                        data@,
                    )
                &&& p.1.bytes@.len() == 35 + data@.len()
            },
            self.is_unlocked() && data@.len() > 0 ==> r is Ok,
    {
        let v = match &self.session {
            None => {
                return Err(VaultError::VaultLocked);
            },
            Some(v) => v,
        };
        if data.len() == 0 {
            return Err(VaultError::EmptyAttachment);
        }
        let ext = infer_image_extension(Some(&source), None);
        let (y, m) = utc_year_month(now);
        let year: u64 = y as u64;
        let id = new_uuid_string();
        proof {
            assert(vstd::utf8::is_ascii_chars(id@)) by {
                assert forall|i: int| 0 <= i < id@.len() implies '\0' <= #[trigger] id@[i]
                    <= '\u{7f}' by {
                    assert(' ' <= id@[i] <= '~');
                }
            }
        }
        let rel = attachment_rel_path(year, m, id.as_str(), &ext);
        let abs = resolve_attachment_path(v.root.as_str(), rel.as_str());
        let enc = encrypt_image_data(&v.key, data);
        let fw = FileWrite { path: abs, bytes: enc };
        proof {
            assert(ext@ == infer_ext_of(Some(source), None));
            assert(year == year_month_of(now).0 as u64);
            assert(m == year_month_of(now).1);
            assert(encode_utf8(rel@) == attachment_rel_bytes(
                year_month_of(now).0 as u64,
                year_month_of(now).1,
                id@,
                infer_ext_of(Some(source), None),
            ));
        }
        Ok((rel, fw))
    }

    /// Decrypts the attachment bytes the caller read from the resolved
    /// path (`attachment_abs_path`); `file` is `None` when no file stands
    /// there.  Legacy plaintext passes through unchanged.
    pub fn decrypt_image(&self, path: &str, file: Option<Vec<u8>>) -> (r: Result<
        Vec<u8>,
        VaultError,
    >)
        requires
            self.inv(),
        ensures
            !self.is_unlocked() <==> r == Err::<Vec<u8>, VaultError>(VaultError::VaultLocked),
            self.is_unlocked() && file is None <==> r == Err::<Vec<u8>, VaultError>(
                VaultError::AttachmentNotFound,
            ),
            match file {
                Some(b) => self.is_unlocked() ==> {
                    &&& (match r {
                        Ok(pt) => spec_decrypt_attachment(self.key_view(), b@) == Ok::<
                            Seq<u8>,
                            VaultError,
                        >(pt@),
                        Err(e) => spec_decrypt_attachment(self.key_view(), b@) == Err::<
                            Seq<u8>,
                            VaultError,
                        >(e),
                    })
                    &&& (forall|iv: Seq<u8>, d: Seq<u8>|
                        iv.len() == 16 && b@ == #[trigger] attachment_bytes(
                            self.key_view(),
                            iv,
                            d,
                        ) ==> r is Ok && r->Ok_0@ == d)
                    &&& (b@.len() >= 24 && b@.subrange(0, 8)
                        != crate::attach::magic_bytes() ==> r is Ok && r->Ok_0@ == b@)
                },
                None => true,
            },
    {
        let v = match &self.session {
            None => {
                return Err(VaultError::VaultLocked);
            },
            Some(v) => v,
        };
        let b = match file {
            None => {
                return Err(VaultError::AttachmentNotFound);
            },
            Some(b) => b,
        };
        decrypt_image_data(&v.key, &b)
    }
}

/// The views of the (id, bytes) pairs the caller read from the entries
/// directory.
pub open spec fn files_view(v: Seq<(String, Vec<u8>)>) -> Seq<(Seq<char>, Seq<u8>)> {
    Seq::new(v.len(), |i: int| (v[i].0@, v[i].1@))
}

/// The bytes filed under an id, scanning from `t`: first match wins.
pub open spec fn file_from(fs: Seq<(Seq<char>, Seq<u8>)>, t: int, id: Seq<char>) -> Option<
    Seq<u8>,
>
    decreases fs.len() - t,
{
    if t < 0 || t >= fs.len() {
        None
    } else if fs[t].0 == id {
        Some(fs[t].1)
    } else {
        file_from(fs, t + 1, id)
    }
}

/// Every index row's file is present among the pairs the caller read and
/// opens under the key, with content small enough to reseal.
pub open spec fn files_open_ok(
    es: Seq<EntryInfoV>,
    key: Seq<u8>,
    fs: Seq<(Seq<char>, Seq<u8>)>,
) -> bool {
    forall|i: int|
        0 <= i < es.len() ==> (match file_from(fs, 0, (#[trigger] es[i]).id) {
            Some(fb) => match spec_open_entry(key, fb) {
                Ok(c) => encode_utf8(c).len() <= 0x10_0000_0000,
                Err(_) => false,
            },
            None => false,
        })
}

/// Compares two byte vectors.
fn bytes_eq(a: &Vec<u8>, b: &Vec<u8>) -> (r: bool)
    ensures
        r == (a@ == b@),
{
    if a.len() != b.len() {
        return false;
    }
    let n = a.len();
    let mut i: usize = 0;
    while i < n
        invariant
            i <= n,
            n == a@.len() == b@.len(),
            forall|j: int| 0 <= j < i ==> a@[j] == b@[j],
        decreases n - i,
    {
        if a[i] != b[i] {
            return false;
        }
        i = i + 1;
    }
    proof {
        assert(a@ =~= b@);
    }
    true
}

impl VaultManager {
    /// Re-keys the whole vault: re-verifies the old passphrase against the
    /// session key, derives a fresh key from the new passphrase and a
    /// fresh salt, and re-encrypts every entry envelope and the metadata
    /// envelope under the new key.  `entry_files` carries, per id, the
    /// entry file bytes the caller read.  Nothing in memory changes unless
    /// every envelope re-encrypted; the caller must then write all the
    /// returned files, so that no mixed-key state is left behind.
    #[verifier::loop_isolation(false)]
    #[verifier::rlimit(100)]
    #[verifier::spinoff_prover]
    pub fn change_passphrase(
        &mut self,
        old_pass: &str,
        new_pass: &str,
        entry_files: Vec<(String, Vec<u8>)>,
        now: u64,
    ) -> (r: Result<Vec<FileWrite>, VaultError>)
        requires
            old(self).inv(),
            now <= MAX_TIMESTAMP,
        ensures
            final(self).inv(),
            r is Err ==> *final(self) == *old(self),
            !old(self).is_unlocked() <==> r == Err::<Vec<FileWrite>, VaultError>(
                VaultError::VaultLocked,
            ),
            (old(self).is_unlocked() && passphrase_ok(old_pass@) && passphrase_ok(new_pass@)
                && argon2id_key_of(old_pass@, old(self).salt_view()) == old(self).key_view()
                && files_open_ok(
                old(self).entries_view(),
                old(self).key_view(),
                files_view(entry_files@),
            ) && 100 + index_measure(old(self).entries_view()) <= 0x10_0000_0000) ==> r is Ok,
            r is Ok ==> argon2id_key_of(old_pass@, old(self).salt_view()) == old(
                self,
            ).key_view(),
            r is Ok ==> {
                &&& final(self).is_unlocked()
                &&& final(self).salt_view().len() == 16
                &&& final(self).key_view() == argon2id_key_of(new_pass@, final(self).salt_view())
                &&& final(self).entries_view() == old(self).entries_view()
                &&& final(self).last_saved_spec() == now
                &&& final(self).path_view() == old(self).path_view()
                &&& final(self).root_view() == old(self).root_view()
                &&& final(self).entries_dir_view() == old(self).entries_dir_view()
                &&& final(self).attachments_dir_view() == old(self).attachments_dir_view()
            },
            r matches Ok(ws) ==> ws@.len() == old(self).entries_view().len() + 1,
            r matches Ok(ws) ==> (forall|i: int|
                0 <= i < old(self).entries_view().len() ==> {
                    &&& (#[trigger] ws@[i]).path@ == spec_entry_file_path(
                        old(self).entries_dir_view(),
                        old(self).entries_view()[i].id,
                    )
                    &&& exists|nonce: Seq<u8>, content: Seq<char>|
                        {
                            &&& nonce.len() == 12
                            &&& ws@[i].bytes@ == #[trigger] sealed_entry_bytes(
                                final(self).key_view(),
                                nonce,
                                content,
                            )
                            &&& file_from(
                                files_view(entry_files@),
                                0,
                                old(self).entries_view()[i].id,
                            ) matches Some(fb) && spec_open_entry(old(self).key_view(), fb)
                                == Ok::<Seq<char>, VaultError>(content)
                        }
                }),
            r matches Ok(ws) ==> ws@[ws@.len() - 1].path@ == old(self).path_view() && (exists|
                nonce: Seq<u8>,
            |
                nonce.len() == 12 && ws@[ws@.len() - 1].bytes@ == #[trigger] sealed_vault_bytes(
                    final(self).key_view(),
                    final(self).salt_view(),
                    nonce,
                    final(self).entries_view(),
                    now,
                )),
    {
        let v = match &self.session {
            None => {
                return Err(VaultError::VaultLocked);
            },
            Some(v) => v,
        };
        let okey = match derive_key(old_pass, &v.salt) {
            Err(e) => {
                return Err(e);
            },
            Ok(k) => k,
        };
        if !bytes_eq(&okey, &v.key) {
            return Err(VaultError::DecryptionFailed);
        }
        let nsalt = random_bytes(16);
        let nkey = match derive_key(new_pass, &nsalt) {
            Err(e) => {
                return Err(e);
            },
            Ok(k) => k,
        };
        let ghost fsv = files_view(entry_files@);
        let ghost evs = infos_view(v.entries@);
        let n = v.entries.len();
        let fn_count = entry_files.len();
        let mut writes: Vec<FileWrite> = Vec::new();
        let mut i: usize = 0;
        while i < n
            invariant
                i <= n,
                writes@.len() == i,
                forall|t: int|
                    0 <= t < i ==> {
                        &&& (#[trigger] writes@[t]).path@ == spec_entry_file_path(
                            v.entries_dir@,
                            evs[t].id,
                        )
                        &&& exists|nonce: Seq<u8>, content: Seq<char>|
                            {
                                &&& nonce.len() == 12
                                &&& writes@[t].bytes@ == #[trigger] sealed_entry_bytes(
                                    nkey@,
                                    nonce,
                                    content,
                                )
                                &&& file_from(fsv, 0, evs[t].id) matches Some(fb)
                                    && spec_open_entry(v.key@, fb) == Ok::<Seq<char>, VaultError>(
                                    content,
                                )
                            }
                    },
            decreases n - i,
        {
            let row_id = &v.entries[i].id;
            let mut t: usize = 0;
            let mut found: Option<usize> = None;
            while t < fn_count && found.is_none()
                invariant
                    t <= fn_count,
                    fn_count == entry_files@.len(),
                    match found {
                        Some(ft) => ft < fn_count && fsv[ft as int].0 == evs[i as int].id
                            && file_from(fsv, 0, evs[i as int].id) == Some(fsv[ft as int].1),
                        None => file_from(fsv, 0, evs[i as int].id) == file_from(
                            fsv,
                            t as int,
                            evs[i as int].id,
                        ),
                    },
                decreases fn_count - t + (if found is Some {
                    0int
                } else {
                    1int
                }),
            {
                if entry_files[t].0 == *row_id {
                    assert(fsv[t as int].0 == evs[i as int].id);
                    found = Some(t);
                } else {
                    assert(fsv[t as int].0 != evs[i as int].id);
                    t = t + 1;
                }
            }
            let ft = match found {
                None => {
                    proof {
                        assert(file_from(fsv, fn_count as int, evs[i as int].id) is None);
                        if files_open_ok(evs, v.key@, fsv) {
                            assert(file_from(fsv, 0, evs[i as int].id) is Some);
                        }
                    }
                    return Err(VaultError::EntryContentMissing);
                },
                Some(ft) => ft,
            };
            proof {
                assert(file_from(fsv, 0, evs[i as int].id) == Some(fsv[ft as int].1));
                assert(fsv[ft as int].1 == entry_files@[ft as int].1@);
            }
            let content = match open_entry(&v.key, &entry_files[ft].1) {
                Err(e) => {
                    proof {
                        if files_open_ok(evs, v.key@, fsv) {
                            assert(spec_open_entry(v.key@, fsv[ft as int].1) is Ok);
                        }
                    }
                    return Err(e);
                },
                Ok(c) => c,
            };
            proof {
                if files_open_ok(evs, v.key@, fsv) {
                    assert(file_from(fsv, 0, evs[i as int].id) is Some);
                    assert(encode_utf8(content@).len() <= 0x10_0000_0000);
                }
            }
            let bytes = match seal_entry(&nkey, content.as_str()) {
                Err(e) => {
                    return Err(e);
                },
                Ok(b) => b,
            };
            let w = FileWrite {
                path: entry_file_path(v.entries_dir.as_str(), row_id.as_str()),
                bytes,
            };
            writes.push(w);
            proof {
                let nn = choose|nonce: Seq<u8>|
                    nonce.len() == 12 && writes@[i as int].bytes@ == #[trigger] sealed_entry_bytes(
                        nkey@,
                        nonce,
                        content@,
                    );
                assert(file_from(fsv, 0, evs[i as int].id) == Some(fsv[ft as int].1));
                assert(fsv[ft as int].1 == entry_files@[ft as int].1@);
                assert(spec_open_entry(v.key@, entry_files@[ft as int].1@) == Ok::<
                    Seq<char>,
                    VaultError,
                >(content@));
            }
            i = i + 1;
        }
        proof {
            lemma_enc_meta_payload_measure(ENVELOPE_VERSION, infos_view(v.entries@));
        }
        let meta_bytes = match seal_vault(&nkey, &nsalt, &v.entries, now) {
            Err(e) => {
                return Err(e);
            },
            Ok(b) => b,
        };
        let meta_w = FileWrite { path: v.path.clone(), bytes: meta_bytes };
        writes.push(meta_w);
        let ghost nkv = nkey@;
        let ghost nsv = nsalt@;
        let ghost okv = v.key@;
        let ghost dirv = v.entries_dir@;
        let new_sess = UnlockedVault {
            key: nkey,
            salt: nsalt,
            entries: clone_infos(&v.entries),
            path: v.path.clone(),
            root: v.root.clone(),
            entries_dir: v.entries_dir.clone(),
            attachments_dir: v.attachments_dir.clone(),
            text_encryption: v.text_encryption,
            last_saved: now,
        };
        self.session = Some(new_sess);
        proof {
            assert(final(self).key_view() == nkv);
            assert(final(self).salt_view() == nsv);
            assert(final(self).entries_view() == evs);
            assert(evs == old(self).entries_view());
            assert(dirv == old(self).entries_dir_view());
            assert(fsv == files_view(entry_files@));
            assert(okv == old(self).key_view());
            assert forall|t: int| 0 <= t < old(self).entries_view().len() implies {
                &&& (#[trigger] writes@[t]).path@ == spec_entry_file_path(
                    old(self).entries_dir_view(),
                    old(self).entries_view()[t].id,
                )
                &&& exists|nonce: Seq<u8>, content: Seq<char>|
                    {
                        &&& nonce.len() == 12
                        &&& writes@[t].bytes@ == #[trigger] sealed_entry_bytes(
                            final(self).key_view(),
                            nonce,
                            content,
                        )
                        &&& file_from(
                            files_view(entry_files@),
                            0,
                            old(self).entries_view()[t].id,
                        ) matches Some(fb) && spec_open_entry(old(self).key_view(), fb) == Ok::<
                            Seq<char>,
                            VaultError,
                        >(content)
                    }
            } by {
                assert(old(self).entries_view()[t] == evs[t]);
                let (nonce, content) = choose|nonce: Seq<u8>, content: Seq<char>|
                    {
                        &&& nonce.len() == 12
                        &&& writes@[t].bytes@ == #[trigger] sealed_entry_bytes(
                            nkv,
                            nonce,
                            content,
                        )
                        &&& file_from(fsv, 0, evs[t].id) matches Some(fb) && spec_open_entry(
                            okv,
                            fb,
                        ) == Ok::<Seq<char>, VaultError>(content)
                    };
                assert(writes@[t].bytes@ == sealed_entry_bytes(
                    final(self).key_view(),
                    nonce,
                    content,
                ));
            }
            let nm = choose|nonce: Seq<u8>|
                nonce.len() == 12 && writes@[writes@.len() - 1].bytes@
                    == #[trigger] sealed_vault_bytes(nkv, nsv, nonce, evs, now);
            assert(writes@[writes@.len() - 1].bytes@ == sealed_vault_bytes(
                final(self).key_view(),
                final(self).salt_view(),
                nm,
                final(self).entries_view(),
                now,
            ));
        }
        Ok(writes)
    }
}

proof fn lemma_part_lift(whole: Seq<char>, p: int, blk: Seq<char>, off: int, n: int)
    requires
        0 <= p,
        p + blk.len() <= whole.len(),
        whole.subrange(p, p + blk.len()) == blk,
        0 <= off,
        0 <= n,
        off + n <= blk.len(),
    ensures
        whole.subrange(p + off, p + off + n) == blk.subrange(off, off + n),
{
    assert(whole.subrange(p + off, p + off + n) =~= blk.subrange(off, off + n)) by {
        assert forall|j: int| 0 <= j < n implies #[trigger] whole.subrange(p + off, p + off + n)[j]
            == blk.subrange(off, off + n)[j] by {
            assert(whole.subrange(p + off, p + off + n)[j] == whole[p + off + j]);
            assert(whole[p + off + j] == whole.subrange(p, p + blk.len())[off + j]);
            assert(whole.subrange(p, p + blk.len())[off + j] == blk[off + j]);
            assert(blk.subrange(off, off + n)[j] == blk[off + j]);
        }
    }
}

/// Block `i` stands somewhere inside the rendered list.
proof fn lemma_block_at(es: Seq<EntryV>, i: int)
    requires
        0 <= i < es.len(),
    ensures
        exists|p: int|
            0 <= p && p + render_entry_text(es[i]).len() <= render_blocks(es).len()
                && #[trigger] render_blocks(es).subrange(p, p + render_entry_text(es[i]).len())
                == render_entry_text(es[i]),
    decreases i,
{
    let whole = render_blocks(es);
    let blk = render_entry_text(es[i]);
    if i == 0 {
        assert(whole.subrange(0, blk.len() as int) =~= blk);
        let pz: int = 0;
        assert(render_blocks(es).subrange(pz, pz + render_entry_text(es[i]).len())
            == render_entry_text(es[i]));
    } else {
        lemma_block_at(es.drop_first(), i - 1);
        let rest = render_blocks(es.drop_first());
        let p0 = choose|p: int|
            0 <= p && p + render_entry_text(es.drop_first()[i - 1]).len() <= rest.len()
                && #[trigger] rest.subrange(
                p,
                p + render_entry_text(es.drop_first()[i - 1]).len(),
            ) == render_entry_text(es.drop_first()[i - 1]);
        assert(es.drop_first()[i - 1] == es[i]);
        let head = render_entry_text(es[0]) + "\n---\n\n"@;
        assert(whole =~= head + rest);
        let p = head.len() + p0;
        assert(whole.subrange(p, p + blk.len()) =~= blk) by {
            assert forall|j: int| 0 <= j < blk.len() implies whole.subrange(
                p as int,
                p + blk.len(),
            )[j] == blk[j] by {
                assert(whole[p + j] == (head + rest)[head.len() + p0 + j]);
                assert((head + rest)[head.len() + p0 + j] == rest[p0 + j]);
                assert(rest[p0 + j] == rest.subrange(p0, p0 + blk.len())[j]);
            }
        }
        assert(render_blocks(es).subrange(p, p + render_entry_text(es[i]).len())
            == render_entry_text(es[i]));
    }
}

/// LAW — the export shows every record: the rendered list carries each
/// record's title and content verbatim, as contiguous runs of the text.
pub proof fn lemma_export_contains(es: Seq<EntryV>, i: int)
    requires
        0 <= i < es.len(),
    ensures
        exists|off: int|
            0 <= off && off + es[i].title.len() <= render_blocks(es).len()
                && #[trigger] render_blocks(es).subrange(off, off + es[i].title.len())
                == es[i].title,
        exists|off: int|
            0 <= off && off + es[i].content.len() <= render_blocks(es).len()
                && #[trigger] render_blocks(es).subrange(off, off + es[i].content.len())
                == es[i].content,
{
    reveal_strlit("# ");
    reveal_strlit("\n创建：");
    reveal_strlit("\n更新：");
    reveal_strlit("\n\n");
    reveal_strlit("\n");
    let whole = render_blocks(es);
    let e = es[i];
    let blk = render_entry_text(e);
    lemma_block_at(es, i);
    let p = choose|p: int|
        0 <= p && p + render_entry_text(es[i]).len() <= render_blocks(es).len()
            && #[trigger] render_blocks(es).subrange(p, p + render_entry_text(es[i]).len())
            == render_entry_text(es[i]);
    let toff: int = 2;
    assert(blk.subrange(toff, toff + e.title.len()) =~= e.title);
    lemma_part_lift(whole, p, blk, toff, e.title.len() as int);
    assert(whole.subrange(p + toff, p + toff + e.title.len()) == e.title);
    let coff: int = 2 + e.title.len() as int + 4 + render_ts(e.created_at).len() as int + 4
        + render_ts(e.updated_at).len() as int + 2;
    assert(blk.subrange(coff, coff + e.content.len()) =~= e.content);
    lemma_part_lift(whole, p, blk, coff, e.content.len() as int);
    assert(whole.subrange(p + coff, p + coff + e.content.len()) == e.content);
}

} // verus!
