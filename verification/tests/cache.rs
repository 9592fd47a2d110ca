use zatlas::cache::{content_hash, schema_state, SchemaState, CACHE_SCHEMA_VERSION};

#[test]
fn different_content_hashes_differently() {
    assert_ne!(content_hash(b"a"), content_hash(b"b"));
    assert_eq!(content_hash(b"a"), content_hash(b"a"));
}

#[test]
fn a_content_hash_is_the_blake3_digest_in_hex() {
    assert_eq!(content_hash(b""), "af1349b9f5f9a1a6a0404dea36dcc9499bcb25c9adc112b7cc9a93cae41f3262");
    assert_eq!(content_hash(b"abc").len(), 64);
}

#[test]
fn a_cache_of_this_layout_is_used_as_it_is() {
    assert_eq!(schema_state(Some(CACHE_SCHEMA_VERSION)), SchemaState::Current);
}

#[test]
fn a_cache_from_a_later_layout_is_refused() {
    assert_eq!(schema_state(Some(CACHE_SCHEMA_VERSION + 1)), SchemaState::FromTheFuture);
}

#[test]
fn a_cache_with_no_or_an_older_layout_is_emptied() {
    assert_eq!(schema_state(None), SchemaState::Stale);
    assert_eq!(schema_state(Some(0)), SchemaState::Stale);
}
