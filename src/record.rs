use vstd::prelude::*;

use crate::error::SearchError;

verus! {

/// The number of characters of an identifier as `add_record` hands it out: a
/// UUID in its hyphenated form.
pub const RECORD_ID_LEN: usize = 36;

/// A stored embedding: its identifier, a display name, the vector itself, when
/// it was created (milliseconds since the Unix epoch, UTC) and free-form
/// metadata. The vector's representation is the store's affair.
#[derive(Debug, Clone)]
pub struct EmbeddingRecord<E> {
    pub id: String,
    pub name: String,
    pub embedding: E,
    pub created_at_millis: i64,
    pub metadata: Vec<(String, String)>,
}

/// A place that keeps embedding records. Failures carry the store's own
/// message.
pub trait EmbeddingStorage<E> {
    fn store_embedding(&mut self, record: EmbeddingRecord<E>) -> Result<(), String>;

    fn get_all_embeddings(&self) -> Result<Vec<EmbeddingRecord<E>>, String>;
}

/// A lowercase hexadecimal digit.
pub open spec fn is_lower_hex(c: char) -> bool {
    ('0' <= c && c <= '9') || ('a' <= c && c <= 'f')
}

/// Where the hyphenated form of a UUID puts its hyphens.
pub open spec fn is_hyphen_position(i: int) -> bool {
    i == 8 || i == 13 || i == 18 || i == 23
}

/// The text of a random (version 4) UUID in hyphenated form: 36 characters,
/// hyphens at 8, 13, 18 and 23, lowercase hex digits elsewhere, the version
/// digit `4` at 14 and one of `8`, `9`, `a`, `b` (the variant) at 19.
pub open spec fn is_uuid_v4_text(s: Seq<char>) -> bool {
    &&& s.len() == RECORD_ID_LEN
    &&& forall|i: int|
        0 <= i < s.len() ==> if is_hyphen_position(i) {
            s[i] == '-'
        } else {
            is_lower_hex(#[trigger] s[i])
        }
    &&& s[14] == '4'
    &&& (s[19] == '8' || s[19] == '9' || s[19] == 'a' || s[19] == 'b')
}

/// Relies on uuid's `Uuid::new_v4`, which fixes the version and variant bits
/// of a random value, and on its `Display`, which writes the lowercase
/// hyphenated form.
#[verifier::external_body]
fn fresh_record_id() -> (r: String)
    ensures
        is_uuid_v4_text(r@),
{
    uuid::Uuid::new_v4().to_string()
}

/// Relies on chrono's `Utc::now` and `DateTime::timestamp_millis`: the current
/// time in milliseconds since the epoch. Nothing is promised of its value.
#[verifier::external_body]
fn now_millis() -> (r: i64) {
    chrono::Utc::now().timestamp_millis()
}

/// The record for `embedding` under `name` with the given identifier and
/// creation time, and no metadata.
pub fn build_record<E>(name: &str, embedding: E, id: String, created_at_millis: i64) -> (r:
    EmbeddingRecord<E>)
    ensures
        r.id == id,
        r.name@ == name@,
        r.embedding == embedding,
        r.created_at_millis == created_at_millis,
        r.metadata@.len() == 0,
{
    EmbeddingRecord { id, name: name.to_owned(), embedding, created_at_millis, metadata: Vec::new() }
}

/// A new record for `embedding` under `name`, with a fresh identifier, the
/// current time and no metadata.
pub fn new_record<E>(name: &str, embedding: E) -> (r: EmbeddingRecord<E>)
    ensures
        r.name@ == name@,
        r.embedding == embedding,
        is_uuid_v4_text(r.id@),
        r.metadata@.len() == 0,
{
    let id = fresh_record_id();
    build_record(name, embedding, id, now_millis())
}

/// A store's answer as the library reports it: a success passes through, and
/// a failure becomes `StorageFailure` with the store's message unchanged.
pub fn storage_result<T>(r: Result<T, String>) -> (out: Result<T, SearchError>)
    ensures
        r matches Ok(v) ==> out == Ok::<T, SearchError>(v),
        r matches Err(m) ==> out == Err::<T, SearchError>(SearchError::StorageFailure(m)),
{
    match r {
        Ok(v) => Ok(v),
        Err(m) => Err(SearchError::StorageFailure(m)),
    }
}

/// What `add_record` returns once the store has answered for the record with
/// identifier `id`: that identifier, or the store's failure unchanged.
pub fn stored_id(id: String, outcome: Result<(), String>) -> (r: Result<String, SearchError>)
    ensures
        outcome is Ok ==> r == Ok::<String, SearchError>(id),
        outcome matches Err(m) ==> r == Err::<String, SearchError>(SearchError::StorageFailure(m)),
{
    match storage_result(outcome) {
        Ok(()) => Ok(id),
        Err(e) => Err(e),
    }
}

/// Builds a record for `embedding` under `name` with a fresh identifier and
/// the current time (`build_record`), hands it to the store, and answers as
/// `stored_id` does for that identifier. Nothing fails before the store is
/// asked.
pub fn add_record<E, S: EmbeddingStorage<E>>(storage: &mut S, name: &str, embedding: E) -> (r:
    Result<String, SearchError>)
    ensures
        r matches Ok(id) ==> is_uuid_v4_text(id@),
        r matches Err(e) ==> e is StorageFailure,
{
    let id = fresh_record_id();
    let record = build_record(name, embedding, id.clone(), now_millis());
    let outcome = storage.store_embedding(record);
    stored_id(id, outcome)
}

/// Every record the store holds, or the store's failure unchanged
/// (`storage_result`).
pub fn load_records<E, S: EmbeddingStorage<E>>(storage: &S) -> (r: Result<
    Vec<EmbeddingRecord<E>>,
    SearchError,
>)
    ensures
        r matches Err(e) ==> e is StorageFailure,
{
    storage_result(storage.get_all_embeddings())
}

} // verus!
