use journal_vault::codec::encode_meta_payload;
use journal_vault::codec::encode_stored_entry;
use journal_vault::codec::encode_stored_vault;
use journal_vault::codec::parse_meta_payload;
use journal_vault::codec::parse_stored_vault;
use journal_vault::EntryInfo;

#[test]
fn empty_payload_exact_bytes() {
    let payload = encode_meta_payload(1, &Vec::new());
    assert_eq!(
        String::from_utf8(payload).unwrap(),
        "{\"version\":1,\"entries\":[],\"text_encryption\":\"aes256_gcm\"}"
    );
}

#[test]
fn one_row_payload_exact_bytes() {
    let rows = vec![EntryInfo {
        id: "id-1".to_string(),
        title: "A \"quoted\" title\n".to_string(),
        created_at: 10,
        updated_at: 20,
        folder: None,
    }];
    let payload = encode_meta_payload(1, &rows);
    let expected = "{\"version\":1,\"entries\":[{\"id\":\"id-1\",\"title\":\"A \\\"quoted\\\" title\\u000a\",\"created_at\":10,\"updated_at\":20,\"folder\":null}],\"text_encryption\":\"aes256_gcm\"}";
    assert_eq!(String::from_utf8(payload).unwrap(), expected);
}

#[test]
fn payload_round_trips_through_parser() {
    let rows = vec![
        EntryInfo {
            id: "id-1".to_string(),
            title: "日记 with\ttabs and \\ slashes".to_string(),
            created_at: 0,
            updated_at: 253402300799,
            folder: Some("fold\"er".to_string()),
        },
        EntryInfo {
            id: "id-2".to_string(),
            title: String::new(),
            created_at: 5,
            updated_at: 5,
            folder: None,
        },
    ];
    let payload = encode_meta_payload(1, &rows);
    let (ver, parsed) = parse_meta_payload(&payload).expect("own encoding must parse");
    assert_eq!(ver, 1);
    assert_eq!(parsed.len(), 2);
    assert_eq!(parsed[0].id, rows[0].id);
    assert_eq!(parsed[0].title, rows[0].title);
    assert_eq!(parsed[0].created_at, rows[0].created_at);
    assert_eq!(parsed[0].updated_at, rows[0].updated_at);
    assert_eq!(parsed[0].folder, rows[0].folder);
    assert_eq!(parsed[1].title, rows[1].title);
    assert_eq!(parsed[1].folder, None);
}

#[test]
fn stored_vault_exact_bytes() {
    let bytes = encode_stored_vault(1, "U0FMVA", "Tk9OQ0U", "Q1Q", Some(42));
    assert_eq!(
        String::from_utf8(bytes).unwrap(),
        "{\"version\":1,\"salt\":\"U0FMVA\",\"nonce\":\"Tk9OQ0U\",\"ciphertext\":\"Q1Q\",\"updated_at\":42}"
    );
}

#[test]
fn stored_vault_round_trips_through_parser() {
    let bytes = encode_stored_vault(1, "U0FMVA", "Tk9OQ0U", "Q1Q", None);
    let sv = parse_stored_vault(&bytes).expect("own encoding must parse");
    assert_eq!(sv.version, 1);
    assert_eq!(sv.salt_b64, "U0FMVA");
    assert_eq!(sv.nonce_b64, "Tk9OQ0U");
    assert_eq!(sv.ct_b64, "Q1Q");
    assert_eq!(sv.updated_at, None);
}

#[test]
fn stored_entry_exact_bytes() {
    let bytes = encode_stored_entry(1, "Tk9OQ0U", "Q1Q");
    assert_eq!(
        String::from_utf8(bytes).unwrap(),
        "{\"version\":1,\"nonce\":\"Tk9OQ0U\",\"ciphertext\":\"Q1Q\"}"
    );
}

#[test]
fn parser_rejects_trailing_garbage() {
    let mut bytes = encode_stored_entry(1, "Tk9OQ0U", "Q1Q");
    bytes.push(b' ');
    assert!(journal_vault::codec::parse_stored_entry(&bytes).is_none());
}

#[test]
fn parser_rejects_leading_zero_numbers() {
    let text = "{\"version\":01,\"nonce\":\"a\",\"ciphertext\":\"b\"}";
    assert!(journal_vault::codec::parse_stored_entry(&text.as_bytes().to_vec()).is_none());
}
