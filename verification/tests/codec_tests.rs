use smart_vault::codec::{decode_cache_binary, encode_cache_binary, VersionedCache};
use smart_vault::vault::SmartVault;

fn populated_vault() -> SmartVault {
    let mut vault = SmartVault::new();
    vault.cache_index.mark_embedding_processed("notes/a.md", 11);
    vault.cache_index.mark_keyword_processed("notes/a.md", 12);
    vault.cache_index.mark_suggestion_processed("notes/b.md", 13);
    vault.cache_index.ignore_suggestion("notes/a.md", "notes/b.md", 500);
    vault.cache_index.cache_insertion("notes/a.md", "Topic", "{\"pos\":3}");
    vault
}

#[test]
fn binary_round_trip_restores_every_kind_of_entry() {
    let vault = populated_vault();
    let bytes = vault.serialize_cache_index(999);

    let mut restored = SmartVault::new();
    restored.deserialize_cache_index(&bytes).expect("written blob loads");

    assert!(restored.cache_index.is_embedding_fresh("notes/a.md", 11));
    assert!(restored.cache_index.is_keyword_fresh("notes/a.md", 12));
    assert!(restored.cache_index.is_suggestion_fresh("notes/b.md", 13));
    assert!(!restored.cache_index.is_embedding_fresh("notes/a.md", 12));
    assert!(restored.cache_index.is_suggestion_ignored("notes/a.md", "notes/b.md"));
    assert!(!restored.cache_index.is_suggestion_ignored("notes/b.md", "notes/a.md"));
    assert_eq!(
        restored.cache_index.get_cached_insertion("notes/a.md", "Topic").map(|s| s.as_str()),
        Some("{\"pos\":3}")
    );
    let listing = restored.cache_index.get_ignored_suggestions();
    assert_eq!(listing.len(), 1);
    assert_eq!(listing[0].source_file, "notes/a.md");
    assert_eq!(listing[0].target_file, "notes/b.md");
    assert_eq!(listing[0].timestamp, 500);
}

#[test]
fn binary_round_trip_of_empty_cache() {
    let vault = SmartVault::new();
    let bytes = vault.serialize_cache_index(0);
    let restored = decode_cache_binary(&bytes).expect("loads");
    assert_eq!(restored.get_ignored_suggestions().len(), 0);
}

#[test]
fn unicode_paths_survive_the_round_trip() {
    let mut vault = SmartVault::new();
    vault.cache_index.mark_embedding_processed("notizen/ubung-alpha.md", 7);
    vault.cache_index.cache_insertion("notizen/ubung-alpha.md", "Sto\u{df}welle", "x");
    let bytes = vault.serialize_cache_index(1);
    let restored = decode_cache_binary(&bytes).expect("loads");
    assert!(restored.is_embedding_fresh("notizen/ubung-alpha.md", 7));
    assert_eq!(
        restored.get_cached_insertion("notizen/ubung-alpha.md", "Sto\u{df}welle").map(|s| s.as_str()),
        Some("x")
    );
}

#[test]
fn legacy_bare_payload_still_loads() {
    // An empty cache written without the envelope: five zero counts.
    let bytes = vec![0u8; 40];
    let restored = decode_cache_binary(&bytes).expect("legacy payload loads");
    assert_eq!(restored.get_ignored_suggestions().len(), 0);
    assert!(!restored.is_embedding_fresh("a.md", 0));
}

#[test]
fn corrupt_bytes_are_a_load_failure() {
    let mut vault = SmartVault::new();
    vault.cache_index.mark_embedding_processed("x.md", 3);
    let err = vault.deserialize_cache_index(&[1, 2, 3]);
    assert!(err.is_err());
    // The failed load leaves the session untouched.
    assert!(vault.cache_index.is_embedding_fresh("x.md", 3));
}

#[test]
fn truncated_blob_is_rejected() {
    let vault = populated_vault();
    let mut bytes = vault.serialize_cache_index(999);
    bytes.pop();
    assert!(decode_cache_binary(&bytes).is_none());
}

#[test]
fn envelope_carries_version_and_tag() {
    let wrapped = VersionedCache::new(7u8, "binary", 1234);
    assert_eq!(wrapped.data, 7u8);
    assert_eq!(wrapped.header.version, 1);
    assert_eq!(wrapped.header.created_at, 1234);
    assert_eq!(wrapped.header.format, "binary");
    let text = VersionedCache::new(0u8, "text", 1);
    assert_eq!(text.header.format, "text");
    // An unrecognized tag falls back to the readable profile.
    let odd = VersionedCache::new(0u8, "msgpack", 1);
    assert_eq!(odd.header.format, "text");
}

#[test]
fn text_round_trip_restores_every_kind_of_entry() {
    let vault = populated_vault();
    let text = vault.serialize_cache_index_text(999);

    let mut restored = SmartVault::new();
    restored
        .deserialize_cache_index_text(&text)
        .expect("written text loads");

    assert!(restored.cache_index.is_embedding_fresh("notes/a.md", 11));
    assert!(restored.cache_index.is_keyword_fresh("notes/a.md", 12));
    assert!(restored.cache_index.is_suggestion_fresh("notes/b.md", 13));
    assert!(restored.cache_index.is_suggestion_ignored("notes/a.md", "notes/b.md"));
    assert_eq!(
        restored.cache_index.get_cached_insertion("notes/a.md", "Topic").map(|s| s.as_str()),
        Some("{\"pos\":3}")
    );
}

#[test]
fn text_blob_is_readable() {
    let vault = SmartVault::new();
    let text = vault.serialize_cache_index_text(42);
    // version, tag, timestamp, then five empty maps.
    assert_eq!(text, "1;4:text42;0;0;0;0;0;");
}

#[test]
fn legacy_bare_text_payload_still_loads() {
    let mut vault = SmartVault::new();
    vault
        .deserialize_cache_index_text("0;0;0;0;0;")
        .expect("legacy text payload loads");
    assert_eq!(vault.cache_index.get_ignored_suggestions().len(), 0);
}

#[test]
fn corrupt_text_is_a_load_failure() {
    let mut vault = SmartVault::new();
    assert!(vault.deserialize_cache_index_text("not a cache at all").is_err());
    assert!(vault.deserialize_cache_index_text("9999999").is_err());
}

#[test]
fn embedding_store_round_trip() {
    let mut vault = SmartVault::new();
    vault.set_embedding("a.md".to_string(), vec![1, -2, 3]);
    vault.set_embedding("b.md".to_string(), vec![0, 7]);
    let bytes = vault.serialize_embeddings_binary(500);

    let mut restored = SmartVault::new();
    restored
        .deserialize_embeddings_binary(&bytes)
        .expect("written store loads");
    assert_eq!(restored.get_embedding_count(), 2);
    assert_eq!(restored.get_embedding("a.md").unwrap(), &vec![1i64, -2, 3]);
    assert_eq!(restored.get_embedding("b.md").unwrap(), &vec![0i64, 7]);
    assert!(restored.get_embedding("c.md").is_none());
}

#[test]
fn embedding_store_empty_round_trip_and_legacy() {
    let vault = SmartVault::new();
    let bytes = vault.serialize_embeddings_binary(0);
    let mut restored = SmartVault::new();
    restored.deserialize_embeddings_binary(&bytes).expect("loads");
    assert_eq!(restored.get_embedding_count(), 0);

    // A bare legacy payload: a zero entry count, no envelope.
    let mut legacy = SmartVault::new();
    legacy
        .deserialize_embeddings_binary(&[0u8; 8])
        .expect("legacy payload loads");
    assert_eq!(legacy.get_embedding_count(), 0);
}

#[test]
fn embedding_store_rejects_corrupt_or_unbounded_blobs() {
    let mut vault = SmartVault::new();
    vault.set_embedding("keep.md".to_string(), vec![9]);
    assert!(vault.deserialize_embeddings_binary(&[5, 4, 3]).is_err());
    // The failed load leaves the store untouched.
    assert_eq!(vault.get_embedding("keep.md").unwrap(), &vec![9i64]);

    // A well-formed wire image whose component is out of the engine's
    // range must be rejected: one entry, empty path, one huge component.
    let mut blob = vec![0u8; 8];
    blob[7] = 1;  // entry count 1
    blob.extend_from_slice(&[0u8; 8]);  // path length 0
    blob.extend_from_slice(&[0, 0, 0, 0, 0, 0, 0, 1]);  // vector length 1
    blob.extend_from_slice(&[0x7F, 0xFF, 0xFF, 0xFF, 0xFF, 0xFF, 0xFF, 0xFF]);
    assert!(vault.deserialize_embeddings_binary(&blob).is_err());
}
