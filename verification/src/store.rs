//! The deduplicating object store: a key-value layer keyed by content hash.
//! The store is the single source of truth for hash computation: callers pass
//! raw content, never a pre-computed hash. A write under a key already present
//! with identical content is a no-op; a write whose key is present with
//! different content is rejected as a hash-mismatch invariant violation, so a
//! key, once written, always loads byte-identical content.
use vstd::prelude::*;

use crate::ObjectError;
use crate::hashing::{ObjectHash, calc_hash, content_hash};

verus! {

/// The mapping a pair of key and value columns denotes, later pairs shadowing
/// earlier ones (the store's invariant keeps keys distinct, so no shadowing
/// ever happens in fact).
pub open spec fn map_of(keys: Seq<u64>, vals: Seq<Seq<u8>>) -> Map<u64, Seq<u8>>
    decreases keys.len(),
{
    if keys.len() == 0 || vals.len() == 0 {
        Map::empty()
    } else {
        map_of(keys.drop_last(), vals.drop_last()).insert(keys.last(), vals.last())
    }
}

/// Whether a save of content `c` into store contents `m` succeeds: it does
/// unless the key is taken by different content (a hash collision).
pub open spec fn save_ok(m: Map<u64, Seq<u8>>, c: Seq<u8>) -> bool {
    m.contains_key(content_hash(c)) ==> m[content_hash(c)] == c
}

/// The store contents after a save of content `c`: unchanged when the save
/// is rejected, extended (or unchanged, when the content was already there)
/// when it succeeds.
pub open spec fn saved_map(m: Map<u64, Seq<u8>>, c: Seq<u8>) -> Map<u64, Seq<u8>> {
    if save_ok(m, c) {
        m.insert(content_hash(c), c)
    } else {
        m
    }
}

/// The object store. Its abstract contents are a map from content hash to
/// content; every key in it is the hash of the content stored under it.
pub struct Store {
    keys: Vec<u64>,
    vals: Vec<Vec<u8>>,
}

impl View for Store {
    type V = Map<u64, Seq<u8>>;

    closed spec fn view(&self) -> Map<u64, Seq<u8>> {
        map_of(self.keys@, self.vals@.map_values(|v: Vec<u8>| v@))
    }
}

proof fn lemma_map_of_contains(keys: Seq<u64>, vals: Seq<Seq<u8>>, k: u64)
    requires
        keys.len() == vals.len(),
    ensures
        map_of(keys, vals).contains_key(k) <==> keys.contains(k),
    decreases keys.len(),
{
    if keys.len() > 0 {
        lemma_map_of_contains(keys.drop_last(), vals.drop_last(), k);
        if keys.contains(k) {
            let i = choose|i: int| 0 <= i < keys.len() && keys[i] == k;
            if i < keys.len() - 1 {
                assert(keys.drop_last()[i] == k);
                assert(keys.drop_last().contains(k));
            }
        } else {
            assert(keys.last() != k);
            if keys.drop_last().contains(k) {
                let i = choose|i: int| 0 <= i < keys.drop_last().len() && keys.drop_last()[i] == k;
                assert(keys[i] == k);
            }
        }
    }
}

proof fn lemma_map_of_index(keys: Seq<u64>, vals: Seq<Seq<u8>>, i: int)
    requires
        keys.len() == vals.len(),
        0 <= i < keys.len(),
        forall|a: int, b: int| 0 <= a < b < keys.len() ==> keys[a] != keys[b],
    ensures
        map_of(keys, vals).contains_key(keys[i]),
        map_of(keys, vals)[keys[i]] == vals[i],
    decreases keys.len(),
{
    if i == keys.len() - 1 {
        lemma_map_of_contains(keys, vals, keys[i]);
        assert(keys.contains(keys[i]));
    } else {
        lemma_map_of_index(keys.drop_last(), vals.drop_last(), i);
        assert(keys.drop_last()[i] == keys[i]);
        assert(vals.drop_last()[i] == vals[i]);
        assert(keys.last() != keys[i]);
    }
}

impl Store {
    /// The store's internal invariant: the two columns run in step, keys are
    /// distinct, and each key is the content hash of the value beside it.
    pub closed spec fn wf(&self) -> bool {
        &&& self.keys@.len() == self.vals@.len()
        &&& forall|a: int, b: int|
            0 <= a < b < self.keys@.len() ==> self.keys@[a] != self.keys@[b]
        &&& forall|i: int|
            0 <= i < self.keys@.len() ==> self.keys@[i] == content_hash(#[trigger] self.vals@[i]@)
    }

    /// The number of objects the store holds.
    pub closed spec fn obj_count(&self) -> nat {
        self.keys@.len()
    }

    /// Creates an empty store.
    pub fn new() -> (r: Store)
        ensures
            r.wf(),
            r@ == Map::<u64, Seq<u8>>::empty(),
            r.obj_count() == 0,
    {
        Store { keys: Vec::new(), vals: Vec::new() }
    }

    /// Index of `k` in the key column, or the column's length when absent.
    fn find(&self, k: u64) -> (r: usize)
        requires
            self.wf(),
        ensures
            r <= self.keys@.len(),
            r < self.keys@.len() ==> self.keys@[r as int] == k,
            r == self.keys@.len() ==> !self.keys@.contains(k),
    {
        let mut i: usize = 0;
        while i < self.keys.len()
            invariant
                0 <= i <= self.keys@.len(),
                forall|j: int| 0 <= j < i ==> self.keys@[j] != k,
            decreases self.keys@.len() - i,
        {
            if self.keys[i] == k {
                return i;
            }
            i = i + 1;
        }
        i
    }

    /// Existence check, used to skip redundant writes.
    pub fn contains(&self, hash: &ObjectHash) -> (r: bool)
        requires
            self.wf(),
        ensures
            r == self@.contains_key(hash@),
    {
        let i = self.find(hash.value);
        proof {
            let vs = self.vals@.map_values(|v: Vec<u8>| v@);
            lemma_map_of_contains(self.keys@, vs, hash.value);
            if i < self.keys@.len() {
                assert(self.keys@.contains(hash@));
            }
        }
        i < self.keys.len()
    }

    /// Saves `data` under its content hash and returns that hash. Idempotent:
    /// saving identical content again is a no-op returning the same hash. A
    /// key already taken by different content is a hash-mismatch invariant
    /// violation and is rejected, so stored content is never overwritten.
    pub fn save(&mut self, data: Vec<u8>) -> (r: Result<ObjectHash, ObjectError>)
        requires
            old(self).wf(),
        ensures
            final(self).wf(),
            final(self)@ == saved_map(old(self)@, data@),
            r is Ok <==> save_ok(old(self)@, data@),
            r matches Ok(h) ==> h@ == content_hash(data@),
            r matches Err(e) ==> e == ObjectError::HashMismatch,
            final(self).obj_count() <= old(self).obj_count() + 1,
    {
        let h = calc_hash(&data);
        let i = self.find(h.value);
        proof {
            let vs = self.vals@.map_values(|v: Vec<u8>| v@);
            lemma_map_of_contains(self.keys@, vs, h.value);
            if i < self.keys@.len() {
                assert(self.keys@.contains(h@));
                lemma_map_of_index(self.keys@, vs, i as int);
            }
        }
        if i < self.keys.len() {
            if bytes_eq(&self.vals[i], &data) {
                proof {
                    assert(self@.insert(h@, data@) =~= self@);
                }
                Ok(h)
            } else {
                Err(ObjectError::HashMismatch)
            }
        } else {
            proof {
                let vs = self.vals@.map_values(|v: Vec<u8>| v@);
                lemma_map_of_contains(self.keys@, vs, h.value);
                assert(!self@.contains_key(h@));
            }
            let ghost old_keys = self.keys@;
            let ghost old_vals = self.vals@;
            self.keys.push(h.value);
            self.vals.push(data);
            proof {
                let vs2 = self.vals@.map_values(|v: Vec<u8>| v@);
                assert(self.keys@.drop_last() =~= old_keys);
                assert(vs2.drop_last() =~= old_vals.map_values(|v: Vec<u8>| v@));
                assert(forall|a: int, b: int|
                    0 <= a < b < self.keys@.len() ==> self.keys@[a] != self.keys@[b]) by {
                    assert(forall|a: int| 0 <= a < old_keys.len()
                        ==> #[trigger] self.keys@[a] == old_keys[a]);
                    if old_keys.contains(h.value) {
                        let w = choose|w: int| 0 <= w < old_keys.len() && old_keys[w] == h.value;
                        assert(false);
                    }
                }
            }
            Ok(h)
        }
    }

    /// Returns the content written at `hash`; a store-miss error when no such
    /// key exists.
    pub fn load(&self, hash: &ObjectHash) -> (r: Result<Vec<u8>, ObjectError>)
        requires
            self.wf(),
        ensures
            r is Ok <==> self@.contains_key(hash@),
            r matches Ok(v) ==> v@ == self@[hash@] && hash@ == content_hash(v@),
            r matches Err(e) ==> e == ObjectError::StoreMiss,
    {
        let i = self.find(hash.value);
        proof {
            let vs = self.vals@.map_values(|v: Vec<u8>| v@);
            lemma_map_of_contains(self.keys@, vs, hash.value);
            if i < self.keys@.len() {
                assert(self.keys@.contains(hash@));
                lemma_map_of_index(self.keys@, vs, i as int);
            }
        }
        if i < self.keys.len() {
            Ok(copy_bytes(&self.vals[i]))
        } else {
            Err(ObjectError::StoreMiss)
        }
    }

    /// The number of objects held, an upper bound on the nesting depth of any
    /// acyclic structure of stored objects.
    pub fn num_objects(&self) -> (r: usize)
        ensures
            r == self.obj_count(),
    {
        self.keys.len()
    }
}

/// Byte-for-byte equality of two byte vectors.
pub fn bytes_eq(a: &Vec<u8>, b: &Vec<u8>) -> (r: bool)
    ensures
        r == (a@ == b@),
{
    if a.len() != b.len() {
        proof {
            assert(a@.len() != b@.len());
        }
        return false;
    }
    let mut i: usize = 0;
    while i < a.len()
        invariant
            0 <= i <= a@.len(),
            a@.len() == b@.len(),
            forall|j: int| 0 <= j < i ==> a@[j] == b@[j],
        decreases a@.len() - i,
    {
        if a[i] != b[i] {
            return false;
        }
        i = i + 1;
    }
    proof {
        assert(a@ =~= b@);
    }
    true
}

/// A fresh copy of a byte vector.
pub fn copy_bytes(v: &Vec<u8>) -> (r: Vec<u8>)
    ensures
        r@ == v@,
{
    let mut out: Vec<u8> = Vec::new();
    let mut i: usize = 0;
    while i < v.len()
        invariant
            0 <= i <= v@.len(),
            out@ =~= v@.take(i as int),
        decreases v@.len() - i,
    {
        out.push(v[i]);
        i = i + 1;
    }
    proof {
        assert(v@.take(v@.len() as int) =~= v@);
    }
    out
}

/// A save never removes or changes what the store already holds: its
/// contents only grow, and only with content stored under its own hash.
pub proof fn lemma_saved_map_extends(m: Map<u64, Seq<u8>>, c: Seq<u8>)
    ensures
        m.submap_of(saved_map(m, c)),
{
    if save_ok(m, c) {
        assert forall|k: u64| m.dom().contains(k) implies saved_map(m, c).dom().contains(k)
            && saved_map(m, c)[k] == m[k] by {}
    }
}

/// Inclusion of store contents is transitive.
pub proof fn lemma_submap_trans(a: Map<u64, Seq<u8>>, b: Map<u64, Seq<u8>>, c: Map<u64, Seq<u8>>)
    requires
        a.submap_of(b),
        b.submap_of(c),
    ensures
        a.submap_of(c),
{
    vstd::map_lib::lemma_submap_of_trans(a, b, c);
}

/// Round trip: a successful save writes the content under its hash, and a
/// load of that hash returns it byte-identical.
pub proof fn lemma_save_load_round_trip(m: Map<u64, Seq<u8>>, c: Seq<u8>)
    requires
        save_ok(m, c),
    ensures
        saved_map(m, c).contains_key(content_hash(c)),
        saved_map(m, c)[content_hash(c)] == c,
{
}

/// Idempotence: once content is saved, saving it again succeeds, returns the
/// same hash, and leaves the store contents unchanged.
pub proof fn lemma_save_idempotent(m: Map<u64, Seq<u8>>, c: Seq<u8>)
    requires
        save_ok(m, c),
    ensures
        save_ok(saved_map(m, c), c),
        saved_map(saved_map(m, c), c) == saved_map(m, c),
{
    assert(saved_map(saved_map(m, c), c) =~= saved_map(m, c));
}

} // verus!
