//! Blobs: immutable objects each wrapping one file's exact content at a
//! point in time, identified by the content's hash. Multiple trees may
//! reference the same blob hash; a blob is never mutated in place.
use vstd::prelude::*;

use crate::ObjectError;
use crate::hashing::{ObjectHash, content_hash};
use crate::store::{Store, copy_bytes, save_ok, saved_map};

verus! {

/// A blob: one file's content and its content hash.
#[derive(Debug)]
pub struct Blob {
    hash: ObjectHash,
    data: Vec<u8>,
}

impl Blob {
    /// The blob's identity.
    pub closed spec fn spec_hash(&self) -> u64 {
        self.hash@
    }

    /// The blob's content.
    pub closed spec fn spec_data(&self) -> Seq<u8> {
        self.data@
    }

    /// A blob's invariant: its recorded hash is the hash of its content.
    pub open spec fn wf(&self) -> bool {
        self.spec_hash() == content_hash(self.spec_data())
    }

    /// Creates a blob from a source file's full content and persists it at
    /// once; the store computes the hash and deduplicates the write.
    pub fn new(store: &mut Store, data: Vec<u8>) -> (r: Result<Blob, ObjectError>)
        requires
            old(store).wf(),
        ensures
            final(store).wf(),
            final(store)@ == saved_map(old(store)@, data@),
            r is Ok <==> save_ok(old(store)@, data@),
            r matches Ok(b) ==> b.wf() && b.spec_data() == data@ && b.spec_hash() == content_hash(
                data@,
            ),
            r matches Err(e) ==> e == ObjectError::HashMismatch,
            final(store).obj_count() <= old(store).obj_count() + 1,
    {
        let stored = copy_bytes(&data);
        match store.save(stored) {
            Ok(h) => Ok(Blob { hash: h, data }),
            Err(e) => Err(e),
        }
    }

    /// Loads the blob written at `hash`; a store-miss error when the store
    /// does not hold it.
    pub fn load(store: &Store, hash: &ObjectHash) -> (r: Result<Blob, ObjectError>)
        requires
            store.wf(),
        ensures
            r is Ok <==> store@.contains_key(hash@),
            r matches Ok(b) ==> b.wf() && b.spec_hash() == hash@ && b.spec_data() == store@[hash@],
            r matches Err(e) ==> e == ObjectError::StoreMiss,
    {
        match store.load(hash) {
            Ok(data) => Ok(Blob { hash: ObjectHash { value: hash.value }, data }),
            Err(e) => Err(e),
        }
    }

    /// Re-persists the blob. Idempotent: when the content is already stored
    /// the store is left unchanged, and the returned hash equals the blob's
    /// own recorded hash — by the store's contract, with no run-time check
    /// needed.
    pub fn save(&self, store: &mut Store) -> (r: Result<ObjectHash, ObjectError>)
        requires
            self.wf(),
            old(store).wf(),
        ensures
            final(store).wf(),
            final(store)@ == saved_map(old(store)@, self.spec_data()),
            r is Ok <==> save_ok(old(store)@, self.spec_data()),
            r matches Ok(h) ==> h@ == self.spec_hash(),
            r matches Err(e) ==> e == ObjectError::HashMismatch,
            final(store).obj_count() <= old(store).obj_count() + 1,
    {
        match store.save(copy_bytes(&self.data)) {
            Ok(h) => Ok(h),
            Err(e) => Err(e),
        }
    }

    /// The blob's content, ready to be written back to a restore target.
    pub fn restore(&self) -> (r: Vec<u8>)
        ensures
            r@ == self.spec_data(),
    {
        copy_bytes(&self.data)
    }

    /// The blob's content hash.
    pub fn get_hash(&self) -> (r: ObjectHash)
        ensures
            r@ == self.spec_hash(),
    {
        ObjectHash { value: self.hash.value }
    }
}

} // verus!
