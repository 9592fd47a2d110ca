//! What the analysis remembers of a file between runs: the hash of its
//! content, and whether a stored cache can be read by this version.
use vstd::prelude::*;

verus! {

/// The lowercase hexadecimal form of the BLAKE3 hash of `data`.
pub uninterp spec fn blake3_hex(data: Seq<u8>) -> Seq<char>;

/// The hash a file's content is known by: `blake3::hash(bytes).to_hex()`,
/// named `blake3_hex`. A BLAKE3 hash is 32 bytes and `to_hex` writes two
/// digits for each, so the text has 64 characters.
#[verifier::external_body]
pub fn content_hash(bytes: &[u8]) -> (r: String)
    ensures
        r@ == blake3_hex(bytes@),
        r@.len() == 64,
{
    blake3::hash(bytes).to_hex().to_string()
}

/// The layout version of the cache database this library writes.
pub const CACHE_SCHEMA_VERSION: u32 = 1;

/// What to do with a cache database, by the layout version it records.
#[derive(Debug, Clone, Copy, PartialEq, Eq, Structural)]
pub enum SchemaState {
    /// Written by this layout: use it as it is.
    Current,
    /// Written by a later layout: refuse it rather than misread it.
    FromTheFuture,
    /// No version, an unreadable one or an earlier one: empty it and record
    /// this layout.
    Stale,
}

/// The state of a cache database that records `found` as its version.
pub fn schema_state(found: Option<u32>) -> (r: SchemaState)
    ensures
        r == match found {
            Some(v) => if v == CACHE_SCHEMA_VERSION {
                SchemaState::Current
            } else if v > CACHE_SCHEMA_VERSION {
                SchemaState::FromTheFuture
            } else {
                SchemaState::Stale
            },
            None => SchemaState::Stale,
        },
{
    match found {
        Some(v) => if v == CACHE_SCHEMA_VERSION {
            SchemaState::Current
        } else if v > CACHE_SCHEMA_VERSION {
            SchemaState::FromTheFuture
        } else {
            SchemaState::Stale
        },
        None => SchemaState::Stale,
    }
}

} // verus!
