//! The key-value storage abstraction.
use vstd::prelude::*;
use crate::bytes::{is_prefix, lex_lt};
use crate::error::SummError;

verus! {

/// The plain form of a scan result: (key, value) pairs.
pub open spec fn entries_model(es: Seq<(Vec<u8>, Vec<u8>)>) -> Seq<(Seq<u8>, Seq<u8>)> {
    es.map_values(|e: (Vec<u8>, Vec<u8>)| (e.0@, e.1@))
}

/// Whether `es` lists exactly the entries of `m` whose keys start with `p`,
/// in ascending key order.
pub open spec fn is_prefix_scan(m: Map<Seq<u8>, Seq<u8>>, p: Seq<u8>, es: Seq<(Seq<u8>, Seq<u8>)>) -> bool {
    &&& forall|i: int| 0 <= i < es.len() ==> {
        &&& is_prefix(p, #[trigger] es[i].0)
        &&& m.contains_key(es[i].0)
        &&& m[es[i].0] == es[i].1
    }
    &&& forall|k: Seq<u8>| m.contains_key(k) && is_prefix(p, k) ==> exists|i: int|
        0 <= i < es.len() && (#[trigger] es[i].0) == k
    &&& forall|i: int, j: int| 0 <= i < j < es.len() ==> lex_lt(#[trigger] es[i].0, #[trigger] es[j].0)
}

/// A key-value store over byte strings with ordered prefix scans.
///
/// Its contents are a map from keys to values. A failed write leaves the
/// contents as they were, and an implementation reports its own failures as
/// `SummError::Storage`.
pub trait StorageEngine {
    /// The stored entries, which the methods' contracts describe. The
    /// engines implement this trait outside verified code, where a ghost
    /// item cannot be written, so it has a default body; verified code is
    /// generic over the engine and never sees that body, only the contracts.
    open spec fn contents(&self) -> Map<Seq<u8>, Seq<u8>> {
        arbitrary()
    }

    fn put(&mut self, key: &[u8], value: &[u8]) -> (r: Result<(), SummError>)
        ensures
            r is Ok ==> final(self).contents() == old(self).contents().insert(key@, value@),
            r is Err ==> final(self).contents() == old(self).contents(),
            r matches Err(e) ==> e is Storage,
    ;

    fn get(&self, key: &[u8]) -> (r: Result<Option<Vec<u8>>, SummError>)
        ensures
            r matches Ok(Some(v)) ==> self.contents().contains_key(key@) && self.contents()[key@] == v@,
            r matches Ok(None) ==> !self.contents().contains_key(key@),
            r matches Err(e) ==> e is Storage,
    ;

    fn delete(&mut self, key: &[u8]) -> (r: Result<(), SummError>)
        ensures
            r is Ok ==> final(self).contents() == old(self).contents().remove(key@),
            r is Err ==> final(self).contents() == old(self).contents(),
            r matches Err(e) ==> e is Storage,
    ;

    fn scan_prefix(&self, prefix: &[u8]) -> (r: Result<Vec<(Vec<u8>, Vec<u8>)>, SummError>)
        ensures
            r matches Ok(es) ==> is_prefix_scan(self.contents(), prefix@, entries_model(es@)),
            r matches Err(e) ==> e is Storage,
    ;
}

} // verus!
