use journal_vault::VaultError;
use journal_vault::VaultManager;

const META: &str = "vroot/vault.json";

fn unlocked(now: u64) -> VaultManager {
    let mut mgr = VaultManager::new();
    mgr.unlock("pw", META.to_string(), None, None, now).unwrap();
    mgr
}

#[test]
fn attachment_round_trip() {
    let mgr = unlocked(1_715_000_000);
    let data = vec![1u8, 2, 3, 4, 5, 200, 250, 0, 9];
    let (rel, write) = mgr
        .store_image_bytes(None, Some("image/png".to_string()), data.clone(), 1_715_000_000)
        .unwrap();
    // The stored bytes are not the plaintext.
    assert_ne!(write.bytes, data);
    assert!(write.bytes.starts_with(b"VAULTIMG"));
    let out = mgr.decrypt_image(&rel, Some(write.bytes)).unwrap();
    assert_eq!(out, data);
}

#[test]
fn attachment_bucket_year_month() {
    // 2024-05-06T12:53:20Z
    let mgr = unlocked(1_715_000_000);
    let (rel, write) = mgr
        .store_image_bytes(None, None, vec![1, 2, 3], 1_715_000_000)
        .unwrap();
    assert!(rel.starts_with("attachments/2024/05/"));
    assert!(rel.ends_with(".bin"));
    assert_eq!(write.path, format!("vroot/{}", rel));
    let abs = mgr.attachment_abs_path(&rel).unwrap();
    assert_eq!(abs, write.path);
}

#[test]
fn mime_table_extensions() {
    let mgr = unlocked(1_715_000_000);
    let cases = [
        ("image/png", ".png"),
        ("image/jpeg", ".jpg"),
        ("image/jpg", ".jpg"),
        ("image/gif", ".gif"),
        ("image/webp", ".webp"),
        ("image/bmp", ".bmp"),
        ("image/svg+xml", ".svg"),
        ("application/octet-stream", ".bin"),
    ];
    for (mime, ext) in cases {
        let (rel, _) = mgr
            .store_image_bytes(None, Some(mime.to_string()), vec![1], 1_715_000_000)
            .unwrap();
        assert!(rel.ends_with(ext), "{} should map to {}", mime, ext);
    }
}

#[test]
fn name_extension_lowercased() {
    let mgr = unlocked(1_715_000_000);
    let (rel, _) = mgr
        .store_image_bytes(
            Some("photo.JPG".to_string()),
            Some("image/png".to_string()),
            vec![1],
            1_715_000_000,
        )
        .unwrap();
    // The name's extension wins over the MIME type, lowercased.
    assert!(rel.ends_with(".jpg"));
}

#[test]
fn store_image_uses_source_extension() {
    let mgr = unlocked(1_715_000_000);
    let (rel, _) = mgr
        .store_image("some/dir/pic.webp".to_string(), vec![1, 2], 1_715_000_000)
        .unwrap();
    assert!(rel.ends_with(".webp"));
}

#[test]
fn empty_attachment_rejected() {
    let mgr = unlocked(1_715_000_000);
    let r = mgr.store_image_bytes(None, None, Vec::new(), 1_715_000_000);
    assert_eq!(r.err(), Some(VaultError::EmptyAttachment));
    let r2 = mgr.store_image("a.png".to_string(), Vec::new(), 1_715_000_000);
    assert_eq!(r2.err(), Some(VaultError::EmptyAttachment));
}

#[test]
fn attachment_not_found() {
    let mgr = unlocked(1_715_000_000);
    let r = mgr.decrypt_image("attachments/2024/05/x.png", None);
    assert_eq!(r.err(), Some(VaultError::AttachmentNotFound));
}

#[test]
fn legacy_attachment_passes_through() {
    let mgr = unlocked(1_715_000_000);
    // 24 bytes or more, but no magic prefix: a legacy plaintext image.
    let legacy: Vec<u8> = (0u8..40).map(|b| b.wrapping_add(65)).collect();
    let out = mgr.decrypt_image("a.png", Some(legacy.clone())).unwrap();
    assert_eq!(out, legacy);
}

#[test]
fn short_attachment_truncated() {
    let mgr = unlocked(1_715_000_000);
    let r = mgr.decrypt_image("a.png", Some(vec![1, 2, 3]));
    assert_eq!(r.err(), Some(VaultError::TruncatedAttachment));
}

#[test]
fn absolute_attachment_path_kept() {
    let mgr = unlocked(1_715_000_000);
    let abs = mgr.attachment_abs_path("/elsewhere/pic.png").unwrap();
    assert_eq!(abs, "/elsewhere/pic.png");
    let joined = mgr.attachment_abs_path("sub/pic.png").unwrap();
    assert_eq!(joined, "vroot/sub/pic.png");
}
