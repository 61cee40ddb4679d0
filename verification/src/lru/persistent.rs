//! A cache that is written through to a durable JSON document.
//!
//! The document is a JSON array of key-value pairs in ascending recency
//! order. The cache is built from the document that the durable location
//! holds. Every `put` leaves the contents to be written to that location:
//! the caller takes their document with `take_unwritten` right after the
//! `put` and writes it. A `get` changes the order in memory only and leaves
//! nothing to write. The document holds the whole contents, so that the
//! cost of writing a `put` through grows with the size of the cache.
use std::hash::Hash;
use vstd::prelude::*;
use vstd::string::StringExecFns;
use crate::error::CacheError;
use crate::lru::model::replayed;
use crate::lru::traits::CacheTrait;
use crate::lru::{key_model, Cache};

verus! {

/// The error of the JSON library.
#[verifier::external_type_specification]
#[verifier::external_body]
pub struct ExJsonError(serde_json::Error);

/// Reads a JSON array of pairs.
///
/// Trusted: this is `serde_json::from_str` at the type of a vector of
/// pairs. Nothing is claimed of what it returns.
#[verifier::external_body]
fn json_decode<K, V>(text: &str) -> (decoded: Result<Vec<(K, V)>, serde_json::Error>) where
    K: serde::de::DeserializeOwned,
    V: serde::de::DeserializeOwned,
{
    serde_json::from_str(text)
}

/// Writes pairs as a JSON array.
///
/// Trusted: this is `serde_json::to_string` at the type of a vector of
/// pairs of references. Nothing is claimed of what it returns.
#[verifier::external_body]
fn json_encode<K, V>(entries: &Vec<(&K, &V)>) -> (encoded: Result<String, serde_json::Error>) where
    K: serde::Serialize,
    V: serde::Serialize,
{
    serde_json::to_string(entries)
}

/// The message of an error of the JSON library.
///
/// Trusted: this is the `Display` text of `serde_json::Error`. Nothing is
/// claimed of it.
#[verifier::external_body]
fn json_error_message(error: &serde_json::Error) -> (message: String) {
    error.to_string()
}

/// The error for a document that the JSON library could not decode, with
/// the library's own message.
pub fn decode_failure(message: String) -> (error: CacheError)
    ensures
        error matches CacheError::ParseError(text) && text@
            == "Erreur lors de la désérialisation: "@ + message@,
{
    CacheError::ParseError(
        String::from_str("Erreur lors de la désérialisation: ").concat(message.as_str()),
    )
}

/// The error for contents that the JSON library could not encode, with the
/// library's own message.
pub fn encode_failure(message: String) -> (error: CacheError)
    ensures
        error matches CacheError::StorageError(text) && text@
            == "Erreur lors de la sérialisation: "@ + message@,
{
    CacheError::StorageError(
        String::from_str("Erreur lors de la sérialisation: ").concat(message.as_str()),
    )
}

/// A cache with the durable location that it is written through to.
pub struct PersistentCache<K, V> where K: Hash + Eq {
    cache: Cache<K, V>,
    file_path: String,
    /// Whether a `put` has happened since the document was last taken.
    unwritten: bool,
}

impl<K, V> View for PersistentCache<K, V> where K: Hash + Eq {
    type V = Seq<(K, V)>;

    /// The resident entries, least recently used first.
    closed spec fn view(&self) -> Seq<(K, V)> {
        self.cache@
    }
}

impl<K, V> PersistentCache<K, V> where K: Hash + Eq + Clone {
    /// The invariant of the cache.
    pub closed spec fn wf(&self) -> bool {
        self.cache.wf()
    }

    /// The capacity that the cache was made with.
    pub closed spec fn capacity_spec(&self) -> nat {
        self.cache.capacity_spec()
    }

    /// The durable location that the cache was made with.
    pub closed spec fn path_spec(&self) -> Seq<char> {
        self.file_path@
    }

    /// Whether a `put` has happened since the document was last taken.
    pub closed spec fn unwritten_spec(&self) -> bool {
        self.unwritten
    }

    /// Makes the cache for `file_path` from the pairs that its document
    /// held, if there was one: they are put in their order, and the
    /// earliest ones leave if there are more than `capacity`. Nothing is
    /// left to write.
    pub fn restore(capacity: usize, file_path: &str, decoded: Option<Vec<(K, V)>>) -> (cache: Self)
        requires
            capacity > 0,
            key_model::<K>(),
        ensures
            cache.wf(),
            cache.capacity_spec() == capacity,
            cache.path_spec() == file_path@,
            !cache.unwritten_spec(),
            cache@ == match decoded {
                Some(entries) => replayed(Seq::<(K, V)>::empty(), capacity as nat, entries@),
                None => Seq::<(K, V)>::empty(),
            },
    {
        PersistentCache {
            cache: Cache::new_persistent(capacity, decoded),
            file_path: String::from_str(file_path),
            unwritten: false,
        }
    }

    /// The durable location that the cache is written through to.
    pub fn file_path(&self) -> (path: &str)
        ensures
            path@ == self.path_spec(),
    {
        self.file_path.as_str()
    }

    /// The number of resident entries.
    pub fn len(&self) -> (len: usize)
        requires
            self.wf(),
        ensures
            len == self@.len(),
            len <= self.capacity_spec(),
    {
        self.cache.len()
    }
}

impl<K, V> PersistentCache<K, V> where
    K: Hash + Eq + Clone + serde::Serialize + serde::de::DeserializeOwned,
    V: serde::Serialize + serde::de::DeserializeOwned,
{
    /// Makes the cache for `file_path`, where `stored` is the document at
    /// that location, or `None` if there is none.
    ///
    /// Without a document, or with an empty one, the cache is empty. A
    /// document that cannot be decoded is a parse error. Otherwise the
    /// cache is restored from the decoded pairs, as `restore` says.
    pub fn new(capacity: usize, file_path: &str, stored: Option<&str>) -> (result: Result<
        Self,
        CacheError,
    >)
        requires
            capacity > 0,
            key_model::<K>(),
        ensures
            match result {
                Ok(cache) => {
                    &&& cache.wf()
                    &&& cache.capacity_spec() == capacity
                    &&& cache.path_spec() == file_path@
                    &&& !cache.unwritten_spec()
                    &&& (stored matches Some(text) && text@.len() > 0) || cache@ == Seq::<
                        (K, V),
                    >::empty()
                },
                Err(error) => {
                    &&& error is ParseError
                    &&& stored matches Some(text) && text@.len() > 0
                },
            },
    {
        match stored {
            None => Ok(Self::restore(capacity, file_path, None)),
            Some(text) => {
                if text.is_empty() {
                    Ok(Self::restore(capacity, file_path, None))
                } else {
                    match json_decode::<K, V>(text) {
                        Ok(entries) => Ok(Self::restore(capacity, file_path, Some(entries))),
                        Err(error) => Err(decode_failure(json_error_message(&error))),
                    }
                }
            },
        }
    }

    /// The document that holds the contents, least recently used entry
    /// first, or a storage error if they cannot be encoded.
    pub fn document(&self) -> (result: Result<String, CacheError>)
        requires
            self.wf(),
        ensures
            result matches Err(error) ==> error matches CacheError::StorageError(text)
                && "Erreur lors de la sérialisation: "@.is_prefix_of(text@),
    {
        let entries = self.cache.iter();
        let outcome = match json_encode::<K, V>(&entries) {
            Ok(document) => Ok(document),
            Err(error) => Err(json_error_message(&error)),
        };
        document_of(outcome)
    }

    /// Takes what is left to write, if a `put` has happened since the last
    /// taking: the document to be written to the durable location, or the
    /// storage error to be reported. The cache keeps its contents.
    pub fn take_unwritten(&mut self) -> (unwritten: Option<Result<String, CacheError>>)
        requires
            old(self).wf(),
        ensures
            final(self).wf(),
            unwritten is Some <==> old(self).unwritten_spec(),
            unwritten matches Some(Err(error)) ==> error is StorageError,
            !final(self).unwritten_spec(),
            final(self)@ == old(self)@,
            final(self).capacity_spec() == old(self).capacity_spec(),
            final(self).path_spec() == old(self).path_spec(),
    {
        if self.unwritten {
            self.unwritten = false;
            Some(self.document())
        } else {
            None
        }
    }
}

impl<K, V> CacheTrait<K, V> for PersistentCache<K, V> where K: Hash + Eq + Clone {
    open spec fn well_formed(&self) -> bool {
        self.wf()
    }

    open spec fn contents(&self) -> Seq<(K, V)> {
        self@
    }

    open spec fn bound(&self) -> nat {
        self.capacity_spec()
    }

    proof fn contents_fit(&self) {
        self.cache.contents_fit();
    }

    /// Looks `key` up in memory. What is left to write stays as it is.
    fn get(&mut self, key: &K) -> (result: Option<&V>)
        ensures
            final(self).path_spec() == old(self).path_spec(),
            final(self).unwritten_spec() == old(self).unwritten_spec(),
    {
        self.cache.get(key)
    }

    /// Stores `value` under `key` in memory and leaves the new contents to
    /// be written.
    fn put(&mut self, key: K, value: V)
        ensures
            final(self).path_spec() == old(self).path_spec(),
            final(self).unwritten_spec(),
    {
        self.cache.put(key, value);
        self.unwritten = true;
    }
}

/// What `document` gives for each outcome of the encoding, where a failure
/// comes with the message of the JSON library: the encoded document as it
/// is, or the storage error that carries that message.
pub fn document_of(outcome: Result<String, String>) -> (result: Result<String, CacheError>)
    ensures
        match outcome {
            Ok(document) => result == Ok::<String, CacheError>(document),
            Err(message) => result matches Err(CacheError::StorageError(text)) && text@
                == "Erreur lors de la sérialisation: "@ + message@,
        },
        result matches Err(error) ==> error matches CacheError::StorageError(text)
            && "Erreur lors de la sérialisation: "@.is_prefix_of(text@),
{
    match outcome {
        Ok(document) => Ok(document),
        Err(message) => {
            let ghost prefix = "Erreur lors de la sérialisation: "@;
            let error = encode_failure(message);
            assert((prefix + message@).subrange(0, prefix.len() as int) =~= prefix);
            Err(error)
        },
    }
}

} // verus!
