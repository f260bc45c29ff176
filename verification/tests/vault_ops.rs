use std::collections::HashMap;
use std::collections::HashSet;

use journal_vault::vault::FileWrite;
use journal_vault::VaultError;
use journal_vault::VaultManager;

const ROOT: &str = "vroot";
const META: &str = "vroot/vault.json";

fn apply(disk: &mut HashMap<String, Vec<u8>>, w: FileWrite) {
    disk.insert(w.path, w.bytes);
}

fn fresh_vault(pass: &str, now: u64) -> (VaultManager, HashMap<String, Vec<u8>>) {
    let mut disk: HashMap<String, Vec<u8>> = HashMap::new();
    let mut mgr = VaultManager::new();
    let (resp, write) = mgr
        .unlock(pass, META.to_string(), None, None, now)
        .expect("creating a fresh vault must succeed");
    assert!(resp.created);
    assert_eq!(resp.entries.len(), 0);
    apply(&mut disk, write.expect("creation returns the metadata write"));
    (mgr, disk)
}

#[test]
fn created_vault_reports_created_and_empty() {
    let (mgr, disk) = fresh_vault("correct-horse", 1_700_000_000);
    assert!(disk.contains_key(META));
    let resp_root = mgr.vault_root().unwrap();
    assert_eq!(resp_root, ROOT);
}

#[test]
fn rfc3339_epoch_rendering() {
    let mut mgr = VaultManager::new();
    let (resp, _) = mgr.unlock("p", META.to_string(), None, None, 0).unwrap();
    assert_eq!(resp.last_saved.as_deref(), Some("1970-01-01T00:00:00Z"));
}

#[test]
fn reopen_lists_saved_entry() {
    let now = 1_700_000_000;
    let (mut mgr, mut disk) = fresh_vault("correct-horse", now);
    let (entry, writes) = mgr.create_entry("Day 1", "Hello", None, now + 1).unwrap();
    for w in writes {
        apply(&mut disk, w);
    }
    mgr.lock();
    assert!(mgr.list().is_err());

    let stored = disk.get(META).cloned();
    let (resp, write) = mgr
        .unlock("correct-horse", META.to_string(), stored, None, now + 2)
        .expect("reopening with the right passphrase must succeed");
    assert!(!resp.created);
    assert!(write.is_none());
    assert_eq!(resp.entries.len(), 1);
    assert_eq!(resp.entries[0].title, "Day 1");
    assert_eq!(resp.entries[0].id, entry.id);

    // The index is sealed: the metadata file never shows the title.
    let text = String::from_utf8(disk.get(META).cloned().unwrap()).unwrap();
    assert!(!text.contains("Day 1"));
}

#[test]
fn wrong_passphrase_rejected() {
    let now = 1_700_000_000;
    let (mut mgr, mut disk) = fresh_vault("correct-horse", now);
    let (_, writes) = mgr.create_entry("Day 1", "Hello", None, now + 1).unwrap();
    for w in writes {
        apply(&mut disk, w);
    }
    mgr.lock();
    let stored = disk.get(META).cloned();
    let r = mgr.unlock("wrong", META.to_string(), stored, None, now + 2);
    assert_eq!(r.err(), Some(VaultError::DecryptionFailed));
}

#[test]
fn create_then_load_returns_content() {
    let now = 1_700_000_000;
    let (mut mgr, mut disk) = fresh_vault("pw", now);
    let (entry, writes) = mgr.create_entry("T", "C", None, now).unwrap();
    let entry_path = writes[0].path.clone();
    for w in writes {
        apply(&mut disk, w);
    }
    assert_eq!(entry.created_at, entry.updated_at);
    assert_eq!(entry.id.len(), 36);

    let file = disk.get(&entry_path).cloned();
    let loaded = mgr.load_entry(&entry.id, file).unwrap();
    assert_eq!(loaded.content, "C");
    assert_eq!(loaded.title, "T");
    assert_eq!(loaded.created_at, loaded.updated_at);

    let listing = mgr.list().unwrap();
    let matching: Vec<_> = listing.iter().filter(|e| e.id == entry.id).collect();
    assert_eq!(matching.len(), 1);
}

#[test]
fn update_preserves_created_bumps_updated() {
    let t1 = 1_700_000_000;
    let t2 = t1 + 50;
    let (mut mgr, mut disk) = fresh_vault("pw", t1);
    let (entry, writes) = mgr.create_entry("T", "C", None, t1).unwrap();
    for w in writes {
        apply(&mut disk, w);
    }
    let mut changed = entry.clone();
    changed.title = "T2".to_string();
    changed.content = "C2".to_string();
    let (updated, writes2) = mgr.update_entry(changed, t2).unwrap();
    for w in writes2 {
        apply(&mut disk, w);
    }
    assert_eq!(updated.created_at, t1);
    assert_eq!(updated.updated_at, t2);
    assert!(updated.updated_at > entry.updated_at);
    assert_eq!(updated.title, "T2");
}

#[test]
fn later_update_sorts_first() {
    let t1 = 1_700_000_000;
    let (mut mgr, mut disk) = fresh_vault("pw", t1);
    let (a, wa) = mgr.create_entry("A", "a", None, t1).unwrap();
    for w in wa {
        apply(&mut disk, w);
    }
    let (b, wb) = mgr.create_entry("B", "b", None, t1 + 1).unwrap();
    for w in wb {
        apply(&mut disk, w);
    }
    let mut a2 = a.clone();
    a2.content = "a2".to_string();
    let (_, wu) = mgr.update_entry(a2, t1 + 10).unwrap();
    for w in wu {
        apply(&mut disk, w);
    }
    let listing = mgr.list().unwrap();
    assert_eq!(listing.len(), 2);
    assert_eq!(listing[0].id, a.id);
    assert_eq!(listing[1].id, b.id);
}

#[test]
fn ties_keep_insertion_order() {
    let t = 1_700_000_000;
    let (mut mgr, _disk) = fresh_vault("pw", t);
    let (a, _) = mgr.create_entry("A", "a", None, t).unwrap();
    let (b, _) = mgr.create_entry("B", "b", None, t).unwrap();
    let listing = mgr.list().unwrap();
    assert_eq!(listing[0].id, a.id);
    assert_eq!(listing[1].id, b.id);
}

#[test]
fn delete_entry_is_total() {
    let now = 1_700_000_000;
    let (mut mgr, mut disk) = fresh_vault("pw", now);
    let (entry, writes) = mgr.create_entry("T", "C", None, now).unwrap();
    let entry_path = writes[0].path.clone();
    for w in writes {
        apply(&mut disk, w);
    }
    let (meta_write, remove_path) = mgr.delete_entry(&entry.id, now + 1).unwrap();
    apply(&mut disk, meta_write);
    assert_eq!(remove_path, entry_path);
    disk.remove(&remove_path);
    assert!(!disk.contains_key(&entry_path));

    let r = mgr.load_entry(&entry.id, disk.get(&entry_path).cloned());
    assert_eq!(r.err(), Some(VaultError::EntryNotFound));
    assert_eq!(mgr.list().unwrap().len(), 0);
}

#[test]
fn delete_unknown_id_not_found() {
    let now = 1_700_000_000;
    let (mut mgr, _disk) = fresh_vault("pw", now);
    let r = mgr.delete_entry("no-such-id", now);
    assert_eq!(r.err(), Some(VaultError::EntryNotFound));
}

#[test]
fn entry_content_missing() {
    let now = 1_700_000_000;
    let (mut mgr, _disk) = fresh_vault("pw", now);
    let (entry, _) = mgr.create_entry("T", "C", None, now).unwrap();
    let r = mgr.load_entry(&entry.id, None);
    assert_eq!(r.err(), Some(VaultError::EntryContentMissing));
}

#[test]
fn entry_version_tamper_unsupported() {
    let now = 1_700_000_000;
    let (mut mgr, mut disk) = fresh_vault("pw", now);
    let (entry, writes) = mgr.create_entry("T", "C", None, now).unwrap();
    let entry_path = writes[0].path.clone();
    for w in writes {
        apply(&mut disk, w);
    }
    let text = String::from_utf8(disk.get(&entry_path).cloned().unwrap()).unwrap();
    let tampered = text.replace("{\"version\":1,", "{\"version\":2,");
    let r = mgr.load_entry(&entry.id, Some(tampered.into_bytes()));
    assert_eq!(r.err(), Some(VaultError::UnsupportedVersion));
}

#[test]
fn vault_version_tamper_unsupported() {
    let now = 1_700_000_000;
    let (mut mgr, disk) = fresh_vault("pw", now);
    mgr.lock();
    let text = String::from_utf8(disk.get(META).cloned().unwrap()).unwrap();
    let tampered = text.replace("{\"version\":1,", "{\"version\":2,");
    let r = mgr.unlock("pw", META.to_string(), Some(tampered.into_bytes()), None, now);
    assert_eq!(r.err(), Some(VaultError::UnsupportedVersion));
}

#[test]
fn garbage_metadata_fails_format() {
    let mut mgr = VaultManager::new();
    let garbage = b"this is not a vault".to_vec();
    let r = mgr.unlock("pw", META.to_string(), Some(garbage), None, 1);
    assert_eq!(r.err(), Some(VaultError::FormatError));
}

#[test]
fn ciphertext_tamper_fails_decryption() {
    let now = 1_700_000_000;
    let (mut mgr, disk) = fresh_vault("pw", now);
    mgr.lock();
    let text = String::from_utf8(disk.get(META).cloned().unwrap()).unwrap();
    let at = text.find("\"ciphertext\":\"").unwrap() + "\"ciphertext\":\"".len();
    let mut bytes = text.into_bytes();
    bytes[at] = if bytes[at] == b'A' { b'B' } else { b'A' };
    let r = mgr.unlock("pw", META.to_string(), Some(bytes), None, now);
    assert_eq!(r.err(), Some(VaultError::DecryptionFailed));
}

#[test]
fn locked_operations_fail() {
    let mgr = VaultManager::new();
    assert_eq!(mgr.list().err(), Some(VaultError::VaultLocked));
    assert_eq!(mgr.vault_root().err(), Some(VaultError::VaultLocked));
    assert_eq!(mgr.load_entry("x", None).err(), Some(VaultError::VaultLocked));
    assert_eq!(
        mgr.export_plaintext(Vec::new()).err(),
        Some(VaultError::VaultLocked)
    );
    assert_eq!(
        mgr.store_image_bytes(None, None, vec![1], 1).err(),
        Some(VaultError::VaultLocked)
    );
    assert_eq!(
        mgr.decrypt_image("a.png", None).err(),
        Some(VaultError::VaultLocked)
    );
    let mut m2 = VaultManager::new();
    assert_eq!(
        m2.create_entry("t", "c", None, 1).err(),
        Some(VaultError::VaultLocked)
    );
    assert_eq!(m2.delete_entry("x", 1).err(), Some(VaultError::VaultLocked));
    assert_eq!(
        m2.change_passphrase("a", "b", Vec::new(), 1).err(),
        Some(VaultError::VaultLocked)
    );
}

#[test]
fn export_contains_entries() {
    let now = 1_700_000_000;
    let (mut mgr, mut disk) = fresh_vault("correct-horse", now);
    let (entry, writes) = mgr.create_entry("Day 1", "Hello", None, now).unwrap();
    for w in writes {
        apply(&mut disk, w);
    }
    let entry_path = format!("{}/entries/{}.bin", ROOT, entry.id);
    let loaded = mgr
        .load_entry(&entry.id, disk.get(&entry_path).cloned())
        .unwrap();
    let text = mgr.export_plaintext(vec![loaded]).unwrap();
    assert!(text.contains("Day 1"));
    assert!(text.contains("Hello"));
}

#[test]
fn export_exact_block() {
    let (mgr, _disk) = fresh_vault("pw", 0);
    let entry = journal_vault::Entry {
        id: "x".to_string(),
        title: "T".to_string(),
        content: "C".to_string(),
        created_at: 0,
        updated_at: 0,
        folder: None,
    };
    let text = mgr.export_plaintext(vec![entry]).unwrap();
    assert_eq!(
        text,
        "# T\n创建：1970-01-01T00:00:00Z\n更新：1970-01-01T00:00:00Z\n\nC\n"
    );
}

#[test]
fn export_joins_blocks_with_separator() {
    let (mgr, _disk) = fresh_vault("pw", 0);
    let mk = |title: &str, ts: u64| journal_vault::Entry {
        id: title.to_string(),
        title: title.to_string(),
        content: "c".to_string(),
        created_at: ts,
        updated_at: ts,
        folder: None,
    };
    let text = mgr.export_plaintext(vec![mk("A", 10), mk("B", 20)]).unwrap();
    // B was touched later, so its block comes first.
    let b_at = text.find("# B").unwrap();
    let a_at = text.find("# A").unwrap();
    assert!(b_at < a_at);
    assert!(text.contains("\n---\n\n"));
}

#[test]
fn change_passphrase_rekeys_everything() {
    let now = 1_700_000_000;
    let (mut mgr, mut disk) = fresh_vault("old-pass", now);
    let (entry, writes) = mgr.create_entry("T", "C", None, now).unwrap();
    for w in writes {
        apply(&mut disk, w);
    }
    let entry_path = format!("{}/entries/{}.bin", ROOT, entry.id);
    let files = vec![(entry.id.clone(), disk.get(&entry_path).cloned().unwrap())];
    let writes = mgr
        .change_passphrase("old-pass", "new-pass", files, now + 1)
        .unwrap();
    assert_eq!(writes.len(), 2);
    for w in writes {
        apply(&mut disk, w);
    }
    mgr.lock();

    let r = mgr.unlock(
        "old-pass",
        META.to_string(),
        disk.get(META).cloned(),
        None,
        now + 2,
    );
    assert_eq!(r.err(), Some(VaultError::DecryptionFailed));

    let (resp, _) = mgr
        .unlock(
            "new-pass",
            META.to_string(),
            disk.get(META).cloned(),
            None,
            now + 2,
        )
        .unwrap();
    assert_eq!(resp.entries.len(), 1);
    let loaded = mgr
        .load_entry(&entry.id, disk.get(&entry_path).cloned())
        .unwrap();
    assert_eq!(loaded.content, "C");
}

#[test]
fn change_passphrase_wrong_old_rejected() {
    let now = 1_700_000_000;
    let (mut mgr, _disk) = fresh_vault("old-pass", now);
    let r = mgr.change_passphrase("not-the-pass", "new", Vec::new(), now);
    assert_eq!(r.err(), Some(VaultError::DecryptionFailed));
}

#[test]
fn chosen_id_create_and_collision() {
    let now = 1_700_000_000;
    let (mut mgr, mut disk) = fresh_vault("pw", now);
    let (entry, writes) = mgr
        .create_entry_with_id("fixed-id-1".to_string(), "T", "C", now)
        .unwrap();
    assert_eq!(entry.id, "fixed-id-1");
    for w in writes {
        apply(&mut disk, w);
    }
    let r = mgr.create_entry_with_id("fixed-id-1".to_string(), "T2", "C2", now);
    assert_eq!(r.err(), Some(VaultError::IdCollision));
    // The collision left the index unchanged.
    assert_eq!(mgr.list().unwrap().len(), 1);
    let entry_path = format!("{}/entries/fixed-id-1.bin", ROOT);
    let loaded = mgr
        .load_entry("fixed-id-1", disk.get(&entry_path).cloned())
        .unwrap();
    assert_eq!(loaded.content, "C");
}

#[test]
fn duplicate_ids_in_stored_vault_rejected() {
    // Forge a metadata envelope whose index carries the same id twice;
    // the engine maintains id uniqueness, so unlocking it is refused.
    let salt = vec![9u8; 16];
    let key = journal_vault::envelope::derive_key("pw", &salt).unwrap();
    let row = |title: &str| journal_vault::EntryInfo {
        id: "dup".to_string(),
        title: title.to_string(),
        created_at: 1,
        updated_at: 2,
        folder: None,
    };
    let forged = vec![row("A"), row("B")];
    let bytes = journal_vault::envelope::seal_vault(&key, &salt, &forged, 5).unwrap();
    let mut mgr = VaultManager::new();
    let r = mgr.unlock("pw", META.to_string(), Some(bytes), None, 10);
    assert_eq!(r.err(), Some(VaultError::FormatError));
}

#[test]
fn nonce_unique_across_saves() {
    let key = vec![7u8; 32];
    let salt = vec![1u8; 16];
    let entries: Vec<journal_vault::EntryInfo> = Vec::new();
    let mut seen: HashSet<String> = HashSet::new();
    for _ in 0..64 {
        let bytes = journal_vault::envelope::seal_vault(&key, &salt, &entries, 5).unwrap();
        let text = String::from_utf8(bytes).unwrap();
        let at = text.find("\"nonce\":\"").unwrap() + "\"nonce\":\"".len();
        let end = text[at..].find('"').unwrap() + at;
        assert!(seen.insert(text[at..end].to_string()), "a nonce repeated");
    }
}
