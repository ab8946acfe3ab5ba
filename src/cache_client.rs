//! The durable record store: hashes of fields, one hash per key.
use vstd::prelude::*;
use crate::types::CacheError;

verus! {

/// The contents of a store: for each key, a hash from field to value.
pub type Hashes = Map<Seq<char>, Map<Seq<char>, Seq<char>>>;

/// The hash under `key`; a missing key reads as an empty hash.
pub open spec fn hash_at(m: Hashes, key: Seq<char>) -> Map<Seq<char>, Seq<char>> {
    if m.contains_key(key) {
        m[key]
    } else {
        Map::empty()
    }
}

/// `o` is what hash `h` holds for field `f`.
pub open spec fn field_read(h: Map<Seq<char>, Seq<char>>, f: Seq<char>, o: Option<String>) -> bool {
    match o {
        Some(v) => h.contains_key(f) && h[f] == v@,
        None => !h.contains_key(f),
    }
}

/// The pairs `v` are exactly the fields of `h` with their values.
pub open spec fn lists_hash(v: Seq<(String, String)>, h: Map<Seq<char>, Seq<char>>) -> bool {
    &&& forall|i: int|
        0 <= i < v.len() ==> h.contains_key((#[trigger] v[i]).0@) && h[v[i].0@] == v[i].1@
    &&& forall|f: Seq<char>| #[trigger]
        h.contains_key(f) ==> exists|i: int| 0 <= i < v.len() && (#[trigger] v[i]).0@ == f
}

/// A store of hashes; every call may fail in the backend.
pub trait CacheClient {
    /// What the store holds. Verified code over an arbitrary store never
    /// sees this default body; it lets stores written outside verified
    /// code leave the model out.
    closed spec fn hashes(&self) -> Hashes {
        Map::empty()
    }

    /// The expiry, in seconds, last set on each key. Verified code over an
    /// arbitrary store never sees this default body either.
    closed spec fn expiries(&self) -> Map<Seq<char>, int> {
        Map::empty()
    }

    /// Sets `field` of the hash under `key` to `value`.
    fn h_set(&mut self, key: &str, field: &str, value: &str) -> (r: Result<(), CacheError>)
        ensures
            r is Ok ==> final(self).hashes() == old(self).hashes().insert(
                key@,
                hash_at(old(self).hashes(), key@).insert(field@, value@),
            ),
            r is Ok ==> final(self).expiries() == old(self).expiries(),
    ;

    /// Reads several fields of the hash under `key`; a missing one is `None`.
    fn hm_get(&mut self, key: &str, fields: &[String]) -> (r: Result<Vec<Option<String>>, CacheError>)
        ensures
            final(self).hashes() == old(self).hashes(),
            final(self).expiries() == old(self).expiries(),
            r matches Ok(v) ==> v.len() == fields.len() && forall|i: int|
                0 <= i < v.len() ==> field_read(hash_at(old(self).hashes(), key@), fields@[i]@, #[trigger] v@[i]),
    ;

    /// Reads every field of the hash under `key`.
    fn h_get_all(&mut self, key: &str) -> (r: Result<Vec<(String, String)>, CacheError>)
        ensures
            final(self).hashes() == old(self).hashes(),
            final(self).expiries() == old(self).expiries(),
            r matches Ok(v) ==> lists_hash(v@, hash_at(old(self).hashes(), key@)),
    ;

    /// Removes the hash under `key`.
    fn delete(&mut self, key: &str) -> (r: Result<(), CacheError>)
        ensures
            r is Ok ==> final(self).hashes() == old(self).hashes().remove(key@),
            r is Ok ==> final(self).expiries() == old(self).expiries().remove(key@),
    ;

    /// Lets the hash under `key` expire after `seconds`; it stays until
    /// then. A count of seconds that is not positive removes it at once.
    fn expire(&mut self, key: &str, seconds: i64) -> (r: Result<(), CacheError>)
        ensures
            r is Ok && seconds > 0 ==> final(self).hashes() == old(self).hashes() && final(self).expiries()
                == old(self).expiries().insert(key@, seconds as int),
            r is Ok && seconds <= 0 ==> final(self).hashes() == old(self).hashes().remove(key@),
            r is Ok && seconds <= 0 ==> final(self).expiries() == old(self).expiries().remove(key@),
    ;
}

} // verus!
