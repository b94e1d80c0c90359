use gateway_core::crypto::{aes256_open, aes256_seal};
use gateway_core::kms::InMemoryKeyManager;
use gateway_core::ledger::ReplayEntry;
use gateway_core::store::{build_aad, AesGcmEncrypter, StoreError, VectorStore};

#[test]
fn roundtrip_plaintext_upsert_get() {
    let mut store = VectorStore::new();
    let repo = "repo-alpha".to_string();
    let key = "vec-1".to_string();
    let payload = vec![1u8, 2, 3, 4];

    let entry = store.upsert(&repo, &key, &payload).expect("upsert ok");
    assert_eq!(entry.repo_id, repo);
    assert!(entry.sequence > 0);

    let got = store.get(&repo, &key).expect("get ok").expect("present");
    assert_eq!(got, payload);
}

#[test]
fn roundtrip_encrypted_upsert_get() {
    let mut store = VectorStore::builder()
        .with_encrypter(AesGcmEncrypter::new())
        .with_key_manager(InMemoryKeyManager::new_with_secret("k1".to_string(), vec![7u8; 32]))
        .build();

    let repo = "repo-alpha".to_string();
    let key = "vec-enc-1".to_string();
    let payload = vec![9u8, 8, 7, 6, 5];

    let entry = store.upsert(&repo, &key, &payload).expect("upsert ok");
    assert!(entry.sequence > 0);

    let got = store.get(&repo, &key).expect("get ok").expect("present");
    assert_eq!(got, payload);
}

#[test]
fn rotates_keys_and_reads_old_records() {
    let mut store = VectorStore::builder()
        .with_encrypter(AesGcmEncrypter::new())
        .with_key_manager(InMemoryKeyManager::new_with_secret("k1".to_string(), vec![1u8; 32]))
        .build();

    let repo = "repo-rot".to_string();

    let p1 = b"alpha".to_vec();
    store.upsert(&repo, &"a".to_string(), &p1).expect("upsert a");

    store
        .kms
        .as_mut()
        .expect("key manager configured")
        .set_current("k2".to_string(), vec![2u8; 32]);

    let p2 = b"beta".to_vec();
    store.upsert(&repo, &"b".to_string(), &p2).expect("upsert b");

    assert_eq!(store.get(&repo, &"a".to_string()).unwrap().unwrap(), p1);
    assert_eq!(store.get(&repo, &"b".to_string()).unwrap().unwrap(), p2);
}

#[test]
fn detects_tampered_envelope() {
    let mut store = VectorStore::builder()
        .with_encrypter(AesGcmEncrypter::new())
        .with_key_manager(InMemoryKeyManager::new("k1".to_string()))
        .build();

    let repo = "repo-tamper".to_string();
    let key = "k".to_string();
    let payload = b"secret-payload".to_vec();

    store.upsert(&repo, &key, &payload).expect("upsert ok");
    assert!(store.tamper_flip_last_byte(&repo, &key));

    let res = store.get(&repo, &key);
    assert!(matches!(res, Err(StoreError::Encryption { .. })), "expected an encryption error");
}

#[test]
fn invalid_envelope_is_error_when_encryption_enabled() {
    let mut store = VectorStore::builder()
        .with_encrypter(AesGcmEncrypter::new())
        .with_key_manager(InMemoryKeyManager::new_with_secret("k1".to_string(), vec![7u8; 32]))
        .build();

    let repo = "repo-a".to_string();
    let key = "k".to_string();
    let payload = b"hello world".to_vec();

    store.upsert(&repo, &key, &payload).expect("upsert ok");

    // Corrupt the stored envelope's magic so it no longer parses.
    let mut raw = store.test_dump_raw(&repo, &key).expect("raw present");
    assert!(!raw.is_empty());
    raw[0] ^= 0xFF;
    store.test_overwrite_raw(&repo, &key, raw);

    let err = store.get(&repo, &key).unwrap_err();
    assert!(matches!(err, StoreError::Encryption { .. }), "expected an encryption error");
}

#[test]
fn aad_mismatch_fails_decrypt() {
    let repo = "repo-a".to_string();
    let key = "k".to_string();
    let kid = "k1".to_string();
    let secret = vec![3u8; 32];
    let payload = b"hello".to_vec();
    let nonce = vec![5u8; 12];

    let good_aad = build_aad(&repo, &kid, &key);
    let sealed = aes256_seal(&secret, &nonce, &good_aad, &payload);

    let bad_aad = build_aad(&"repo-b".to_string(), &kid, &key);
    let res = aes256_open(&secret, &nonce, &bad_aad, &sealed);
    assert!(res.is_none());

    let ok = aes256_open(&secret, &nonce, &good_aad, &sealed);
    assert_eq!(ok.unwrap(), payload);
}

#[test]
fn replay_applies_in_order_and_advances_sequence() {
    let mut store = VectorStore::new();
    let repo = "repo-theta".to_string();

    let _ = store.upsert(&repo, &"k1".to_string(), &b"a".to_vec()).unwrap();
    let _ = store.upsert(&repo, &"k2".to_string(), &b"b".to_vec()).unwrap();

    let entries = vec![
        replay_entry(10, &repo, "x"),
        replay_entry(8, &repo, "y"),
        replay_entry(9, &repo, "z"),
    ];

    let stats = store.replay(entries).expect("replay ok");
    assert_eq!(stats.applied, 3);
    assert_eq!(stats.max_sequence, Some(10));

    let entry = store.upsert(&repo, &"k3".to_string(), &b"c".to_vec()).unwrap();
    assert_eq!(entry.sequence, 11);
}

fn replay_entry(sequence: u64, repo: &str, checksum: &str) -> ReplayEntry {
    ReplayEntry {
        sequence,
        repo_id: repo.to_string(),
        delayed_ms: 0,
        payload_checksum_before: checksum.to_string(),
        payload_checksum_after: checksum.to_string(),
        status: "emitted".to_string(),
    }
}
