//! Trees: directory snapshots as ordered lists of named child entries, each a
//! blob (a file) or a nested tree (a subdirectory), identified by the hash of
//! their own serialized form. Any change to any entry, however deep, changes
//! every ancestor tree's hash up to the root: the Merkle property.
use vstd::prelude::*;

use crate::ObjectError;
use crate::blob::Blob;
use crate::codec::{NL, SP, decode_tree_entries, encode_entries, encode_tree_entries, find_byte,
    parse_entries, lemma_parse_entries_wf};
use crate::hashing::{ObjectHash, content_hash};
use crate::store::{Store, bytes_eq, copy_bytes, save_ok, saved_map, lemma_saved_map_extends,
    lemma_submap_trans};

verus! {

/// The byte that separates path components.
pub const SLASH: u8 = 0x2f;

/// What a tree entry points at: a file's content or a nested directory.
#[derive(Clone, Copy, Debug, PartialEq, Eq, Structural)]
pub enum EntryKind {
    Blob,
    Tree,
}

/// One named child of a tree: its kind, the filesystem mode captured at
/// snapshot time, the hash of the child object, and the child's name.
#[derive(Clone, Debug)]
pub struct TreeEntry {
    pub kind: EntryKind,
    pub mode: Vec<u8>,
    pub object_hash: ObjectHash,
    pub name: Vec<u8>,
}

/// The mathematical value of a tree entry.
pub ghost struct EntryModel {
    pub kind: EntryKind,
    pub mode: Seq<u8>,
    pub hash: u64,
    pub name: Seq<u8>,
}

impl View for TreeEntry {
    type V = EntryModel;

    open spec fn view(&self) -> EntryModel {
        EntryModel {
            kind: self.kind,
            mode: self.mode@,
            hash: self.object_hash@,
            name: self.name@,
        }
    }
}

/// Well-formedness of an entry: the mode is nonempty and free of spaces and
/// newlines, and the name is free of newlines, so that the serialized entry
/// list can be read back unambiguously.
pub open spec fn wf_entry(e: EntryModel) -> bool {
    &&& e.mode.len() > 0
    &&& forall|i: int| 0 <= i < e.mode.len() ==> #[trigger] e.mode[i] != 0x20 && e.mode[i] != 0x0a
    &&& forall|i: int| 0 <= i < e.name.len() ==> #[trigger] e.name[i] != 0x0a
}

/// Well-formedness of a whole entry list.
pub open spec fn wf_entries(es: Seq<EntryModel>) -> bool {
    forall|i: int| 0 <= i < es.len() ==> wf_entry(#[trigger] es[i])
}

/// A tree: a directory snapshot, as the ordered list of its child entries
/// and, once persisted, the hash of its serialized entry list.
#[derive(Debug)]
pub struct Tree {
    pub hash: ObjectHash,
    pub entries: Vec<TreeEntry>,
}

/// A file handed in by the staging collaborator: its working-relative path,
/// the filesystem mode captured for it, and its full content.
#[derive(Debug)]
pub struct TrackedFile {
    pub path: Vec<u8>,
    pub mode: Vec<u8>,
    pub data: Vec<u8>,
}

/// The mathematical value of a tracked file.
pub ghost struct FileModel {
    pub path: Seq<u8>,
    pub mode: Seq<u8>,
    pub data: Seq<u8>,
}

impl View for TrackedFile {
    type V = FileModel;

    open spec fn view(&self) -> FileModel {
        FileModel { path: self.path@, mode: self.mode@, data: self.data@ }
    }
}

/// A valid relative path: nonempty, free of newlines, with no leading,
/// trailing or doubled separator, so every component is nonempty.
pub open spec fn valid_path(p: Seq<u8>) -> bool {
    &&& p.len() > 0
    &&& p[0] != SLASH
    &&& p[p.len() - 1] != SLASH
    &&& forall|i: int| 0 <= i < p.len() - 1 ==> !(#[trigger] p[i] == SLASH && p[i + 1] == SLASH)
    &&& forall|i: int| 0 <= i < p.len() ==> #[trigger] p[i] != NL
}

/// A valid mode string: nonempty and free of the bytes that end a serialized
/// field.
pub open spec fn valid_mode(m: Seq<u8>) -> bool {
    m.len() > 0 && forall|i: int| 0 <= i < m.len() ==> #[trigger] m[i] != SP && m[i] != NL
}

/// Validity of a whole tracked-file list.
pub open spec fn valid_input(files: Seq<FileModel>) -> bool {
    forall|i: int|
        0 <= i < files.len() ==> valid_path((#[trigger] files[i]).path) && valid_mode(
            files[i].mode,
        )
}

/// The length of the longest tracked path: a bound on how deep the built
/// directory structure can nest.
pub open spec fn max_path_len(files: Seq<FileModel>) -> int
    decreases files.len(),
{
    if files.len() == 0 {
        0
    } else if max_path_len(files.drop_last()) >= files.last().path.len() {
        max_path_len(files.drop_last())
    } else {
        files.last().path.len() as int
    }
}

proof fn lemma_max_path_len(files: Seq<FileModel>, i: int)
    requires
        0 <= i < files.len(),
    ensures
        files[i].path.len() <= max_path_len(files),
    decreases files.len(),
{
    if i < files.len() - 1 {
        lemma_max_path_len(files.drop_last(), i);
        assert(files.drop_last()[i] == files[i]);
    }
}

/// The relative paths listed by a recursive walk of an entry list against
/// store contents `m`: a blob entry yields its name, a tree entry is loaded
/// from the store, walked with one unit of fuel less, and its paths are
/// prefixed with the entry's name. Fuel bounds the nesting depth: content
/// whose nesting outruns it does not describe an acyclic structure of
/// objects held by the store and is reported as a format error.
pub open spec fn files_from(m: Map<u64, Seq<u8>>, es: Seq<EntryModel>, fuel: nat) -> Result<
    Seq<Seq<u8>>,
    ObjectError,
>
    decreases fuel, es.len(),
{
    if es.len() == 0 {
        Ok(Seq::empty())
    } else {
        let e = es[0];
        if e.kind is Blob {
            match files_from(m, es.skip(1), fuel) {
                Ok(rest) => Ok(seq![e.name] + rest),
                Err(x) => Err(x),
            }
        } else if fuel == 0 {
            Err(ObjectError::FormatError)
        } else if !m.contains_key(e.hash) {
            Err(ObjectError::StoreMiss)
        } else {
            match parse_entries(m[e.hash]) {
                None => Err(ObjectError::FormatError),
                Some(sub) => match files_from(m, sub, (fuel - 1) as nat) {
                    Err(x) => Err(x),
                    Ok(subpaths) => match files_from(m, es.skip(1), fuel) {
                        Err(x) => Err(x),
                        Ok(rest) => Ok(
                            subpaths.map_values(|p: Seq<u8>| e.name + seq![SLASH] + p) + rest,
                        ),
                    },
                },
            }
        }
    }
}

/// The (path, blob hash) pairs listed by the same walk.
pub open spec fn blobs_from(m: Map<u64, Seq<u8>>, es: Seq<EntryModel>, fuel: nat) -> Result<
    Seq<(Seq<u8>, u64)>,
    ObjectError,
>
    decreases fuel, es.len(),
{
    if es.len() == 0 {
        Ok(Seq::empty())
    } else {
        let e = es[0];
        if e.kind is Blob {
            match blobs_from(m, es.skip(1), fuel) {
                Ok(rest) => Ok(seq![(e.name, e.hash)] + rest),
                Err(x) => Err(x),
            }
        } else if fuel == 0 {
            Err(ObjectError::FormatError)
        } else if !m.contains_key(e.hash) {
            Err(ObjectError::StoreMiss)
        } else {
            match parse_entries(m[e.hash]) {
                None => Err(ObjectError::FormatError),
                Some(sub) => match blobs_from(m, sub, (fuel - 1) as nat) {
                    Err(x) => Err(x),
                    Ok(subpairs) => match blobs_from(m, es.skip(1), fuel) {
                        Err(x) => Err(x),
                        Ok(rest) => Ok(
                            subpairs.map_values(|p: (Seq<u8>, u64)| (e.name + seq![SLASH] + p.0, p.1))
                                + rest,
                        ),
                    },
                },
            }
        }
    }
}

impl Tree {
    /// The mathematical value of the entry list.
    pub open spec fn entry_models(&self) -> Seq<EntryModel> {
        self.entries@.map_values(|e: TreeEntry| e@)
    }

    /// A tree whose entries can be serialized back.
    pub open spec fn wf(&self) -> bool {
        wf_entries(self.entry_models())
    }

    /// A persisted tree: its hash is the hash of its serialized entry list.
    pub open spec fn sealed(&self) -> bool {
        self.hash@ == content_hash(encode_entries(self.entry_models()))
    }

    /// The tree's hash.
    pub fn get_hash(&self) -> (r: ObjectHash)
        ensures
            r == self.hash,
    {
        ObjectHash { value: self.hash.value }
    }

    /// Serializes the entry list, persists it under its hash, records that
    /// hash in the tree and returns it. Idempotent: saving an already stored
    /// tree rewrites nothing and returns the same hash.
    pub fn save(&mut self, store: &mut Store) -> (r: Result<ObjectHash, ObjectError>)
        requires
            old(self).wf(),
            old(store).wf(),
        ensures
            final(store).wf(),
            final(self).entries@ == old(self).entries@,
            final(self).wf(),
            final(store)@ == saved_map(old(store)@, encode_entries(old(self).entry_models())),
            r is Ok <==> save_ok(old(store)@, encode_entries(old(self).entry_models())),
            r matches Ok(h) ==> h@ == content_hash(encode_entries(old(self).entry_models()))
                && final(self).hash == h && final(self).sealed(),
            r matches Err(e) ==> e == ObjectError::HashMismatch && final(self).hash == old(
                self,
            ).hash,
            final(store).obj_count() <= old(store).obj_count() + 1,
    {
        let data = encode_tree_entries(&self.entries);
        match store.save(data) {
            Ok(h) => {
                self.hash = h;
                Ok(ObjectHash { value: h.value })
            },
            Err(e) => Err(e),
        }
    }

    /// Fetches and deserializes the entry list written at `hash`: a
    /// store-miss error when the store does not hold the hash, a format
    /// error when what it holds is not a valid entry list.
    pub fn load(store: &Store, hash: &ObjectHash) -> (r: Result<Tree, ObjectError>)
        requires
            store.wf(),
        ensures
            r is Ok <==> store@.contains_key(hash@) && parse_entries(store@[hash@]) is Some,
            r matches Ok(t) ==> t.hash == *hash && Some(t.entry_models()) == parse_entries(
                store@[hash@],
            ) && t.wf(),
            r matches Err(e) ==> (e == ObjectError::StoreMiss <==> !store@.contains_key(hash@))
                && (e == ObjectError::FormatError <==> store@.contains_key(hash@)
                && parse_entries(store@[hash@]) is None),
    {
        let data = match store.load(hash) {
            Ok(d) => d,
            Err(e) => {
                return Err(e);
            },
        };
        match decode_tree_entries(&data) {
            Ok(entries) => {
                proof {
                    lemma_parse_entries_wf(data@);
                }
                Ok(Tree { hash: ObjectHash { value: hash.value }, entries })
            },
            Err(e) => Err(e),
        }
    }

    /// Walks the entries in order and returns every file's relative path:
    /// a blob entry yields its name, a tree entry's sub-tree is loaded from
    /// the store and its paths come back prefixed with the entry's name.
    pub fn get_recursive_file_entries(&self, store: &Store) -> (r: Result<
        Vec<Vec<u8>>,
        ObjectError,
    >)
        requires
            store.wf(),
        ensures
            match files_from(store@, self.entry_models(), store.obj_count()) {
                Ok(ps) => r matches Ok(v) && v@.map_values(|p: Vec<u8>| p@) == ps,
                Err(e) => r == Err::<Vec<Vec<u8>>, ObjectError>(e),
            },
    {
        let fuel = store.num_objects();
        files_rec(store, &self.entries, fuel)
    }

    /// Walks the entries in order and returns every file's relative path
    /// paired with its blob's hash.
    pub fn get_recursive_blobs(&self, store: &Store) -> (r: Result<
        Vec<(Vec<u8>, ObjectHash)>,
        ObjectError,
    >)
        requires
            store.wf(),
        ensures
            match blobs_from(store@, self.entry_models(), store.obj_count()) {
                Ok(ps) => r matches Ok(v) && v@.map_values(|p: (Vec<u8>, ObjectHash)| (p.0@, p.1@))
                    == ps,
                Err(e) => r == Err::<Vec<(Vec<u8>, ObjectHash)>, ObjectError>(e),
            },
    {
        let fuel = store.num_objects();
        blobs_rec(store, &self.entries, fuel)
    }
}

/// The mathematical values of a tracked-file list.
pub open spec fn file_models(files: Seq<TrackedFile>) -> Seq<FileModel> {
    files.map_values(|f: TrackedFile| f@)
}

/// The mathematical values of an entry list.
pub open spec fn entry_views(es: Seq<TreeEntry>) -> Seq<EntryModel> {
    es.map_values(|e: TreeEntry| e@)
}

/// The mode recorded for a subdirectory entry.
pub open spec fn dir_mode_spec() -> Seq<u8> {
    seq![0x34, 0x30, 0x30, 0x30, 0x30]
}

/// Builds the mode string of a subdirectory entry.
fn dir_mode() -> (r: Vec<u8>)
    ensures
        r@ == dir_mode_spec(),
{
    let mut out: Vec<u8> = Vec::new();
    out.push(0x34);
    out.push(0x30);
    out.push(0x30);
    out.push(0x30);
    out.push(0x30);
    proof {
        assert(out@ =~= dir_mode_spec());
    }
    out
}

/// Where a path's remainder starts relative to a directory prefix: past the
/// prefix and its separator, or at the start for the root prefix.
pub open spec fn off_of(prefix: Seq<u8>) -> int {
    if prefix.len() == 0 {
        0int
    } else {
        prefix.len() as int + 1
    }
}

/// Whether path `p` lies strictly below the directory named by `prefix`.
pub open spec fn under_prefix(p: Seq<u8>, prefix: Seq<u8>) -> bool {
    p.len() > off_of(prefix) && (prefix.len() == 0 || (p.take(prefix.len() as int) == prefix
        && p[prefix.len() as int] == SLASH))
}

/// The shape of an entry: everything but the object hash.
pub open spec fn shape_of(e: EntryModel) -> (EntryKind, Seq<u8>, Seq<u8>) {
    (e.kind, e.mode, e.name)
}

/// The shapes of a whole entry list.
pub open spec fn shapes_of(es: Seq<EntryModel>) -> Seq<(EntryKind, Seq<u8>, Seq<u8>)> {
    es.map_values(|e: EntryModel| shape_of(e))
}

/// The kinds, modes and names that the builder's scan of `files` from index
/// `i` on emits for the directory named by `prefix`, given the subdirectory
/// names already seen: a blob entry per direct file, a tree entry per
/// first-seen subdirectory, in discovery order.
pub open spec fn level_entries(
    files: Seq<FileModel>,
    prefix: Seq<u8>,
    i: int,
    seen: Set<Seq<u8>>,
) -> Seq<(EntryKind, Seq<u8>, Seq<u8>)>
    decreases files.len() - i,
{
    if i < 0 || i >= files.len() {
        Seq::empty()
    } else {
        let p = files[i].path;
        let rest = level_entries(files, prefix, i + 1, seen);
        if under_prefix(p, prefix) {
            let rem = p.subrange(off_of(prefix), p.len() as int);
            match find_byte(rem, SLASH) {
                None => seq![(EntryKind::Blob, files[i].mode, rem)] + rest,
                Some(sp) => {
                    let name = rem.take(sp);
                    if seen.contains(name) {
                        rest
                    } else {
                        seq![(EntryKind::Tree, dir_mode_spec(), name)] + level_entries(
                            files,
                            prefix,
                            i + 1,
                            seen.insert(name),
                        )
                    }
                },
            }
        } else {
            rest
        }
    }
}

/// Hash fidelity of an entry list against the tracked input: every blob
/// entry carries the content hash of a tracked file lying below `prefix`
/// whose remaining path is the entry's name.
pub open spec fn blob_hashes_faithful(
    es: Seq<EntryModel>,
    files: Seq<FileModel>,
    prefix: Seq<u8>,
) -> bool {
    forall|k: int|
        0 <= k < es.len() && (#[trigger] es[k]).kind is Blob ==> exists|j: int|
            0 <= j < files.len() && under_prefix((#[trigger] files[j]).path, prefix)
                && es[k].name == files[j].path.subrange(off_of(prefix), files[j].path.len() as int)
                && es[k].hash == content_hash(files[j].data)
}

/// A successful walk does not depend on anything the store gains later: the
/// store only grows, and never changes what a key holds.
proof fn lemma_files_from_frame(
    m1: Map<u64, Seq<u8>>,
    m2: Map<u64, Seq<u8>>,
    es: Seq<EntryModel>,
    fuel: nat,
)
    requires
        files_from(m1, es, fuel) is Ok,
        m1.submap_of(m2),
    ensures
        files_from(m2, es, fuel) == files_from(m1, es, fuel),
    decreases fuel, es.len(),
{
    if es.len() == 0 {
    } else {
        let e = es[0];
        if e.kind is Blob {
            lemma_files_from_frame(m1, m2, es.skip(1), fuel);
        } else {
            assert(fuel > 0);
            assert(m1.contains_key(e.hash));
            assert(m1.dom().contains(e.hash));
            assert(m2.dom().contains(e.hash) && m2[e.hash] == m1[e.hash]);
            let sub = parse_entries(m1[e.hash]).unwrap();
            lemma_files_from_frame(m1, m2, sub, (fuel - 1) as nat);
            lemma_files_from_frame(m1, m2, es.skip(1), fuel);
        }
    }
}

/// The walk of two entry lists laid end to end succeeds when each part does,
/// and lists the first part's paths before the second's.
proof fn lemma_files_from_append(
    m: Map<u64, Seq<u8>>,
    es1: Seq<EntryModel>,
    es2: Seq<EntryModel>,
    fuel: nat,
)
    requires
        files_from(m, es1, fuel) is Ok,
        files_from(m, es2, fuel) is Ok,
    ensures
        files_from(m, es1 + es2, fuel) == Ok::<Seq<Seq<u8>>, ObjectError>(
            files_from(m, es1, fuel).unwrap() + files_from(m, es2, fuel).unwrap(),
        ),
    decreases es1.len(),
{
    if es1.len() == 0 {
        assert(es1 + es2 =~= es2);
        assert(files_from(m, es1, fuel).unwrap() + files_from(m, es2, fuel).unwrap() =~= files_from(
            m,
            es2,
            fuel,
        ).unwrap());
    } else {
        let e = es1[0];
        assert((es1 + es2)[0] == e);
        assert((es1 + es2).skip(1) =~= es1.skip(1) + es2);
        lemma_files_from_append(m, es1.skip(1), es2, fuel);
        if e.kind is Blob {
            assert(seq![e.name] + (files_from(m, es1.skip(1), fuel).unwrap() + files_from(
                m,
                es2,
                fuel,
            ).unwrap()) =~= (seq![e.name] + files_from(m, es1.skip(1), fuel).unwrap())
                + files_from(m, es2, fuel).unwrap());
        } else {
            let sub = parse_entries(m[e.hash]).unwrap();
            let subpaths = files_from(m, sub, (fuel - 1) as nat).unwrap();
            let mapped = subpaths.map_values(|q: Seq<u8>| e.name + seq![SLASH] + q);
            assert(mapped + (files_from(m, es1.skip(1), fuel).unwrap() + files_from(
                m,
                es2,
                fuel,
            ).unwrap()) =~= (mapped + files_from(m, es1.skip(1), fuel).unwrap()) + files_from(
                m,
                es2,
                fuel,
            ).unwrap());
        }
    }
}

/// `lemma_files_from_frame`, for the blob-listing walk.
proof fn lemma_blobs_from_frame(
    m1: Map<u64, Seq<u8>>,
    m2: Map<u64, Seq<u8>>,
    es: Seq<EntryModel>,
    fuel: nat,
)
    requires
        blobs_from(m1, es, fuel) is Ok,
        m1.submap_of(m2),
    ensures
        blobs_from(m2, es, fuel) == blobs_from(m1, es, fuel),
    decreases fuel, es.len(),
{
    if es.len() == 0 {
    } else {
        let e = es[0];
        if e.kind is Blob {
            lemma_blobs_from_frame(m1, m2, es.skip(1), fuel);
        } else {
            assert(m1.dom().contains(e.hash));
            assert(m2.dom().contains(e.hash) && m2[e.hash] == m1[e.hash]);
            let sub = parse_entries(m1[e.hash]).unwrap();
            lemma_blobs_from_frame(m1, m2, sub, (fuel - 1) as nat);
            lemma_blobs_from_frame(m1, m2, es.skip(1), fuel);
        }
    }
}

/// `lemma_files_from_append`, for the blob-listing walk.
proof fn lemma_blobs_from_append(
    m: Map<u64, Seq<u8>>,
    es1: Seq<EntryModel>,
    es2: Seq<EntryModel>,
    fuel: nat,
)
    requires
        blobs_from(m, es1, fuel) is Ok,
        blobs_from(m, es2, fuel) is Ok,
    ensures
        blobs_from(m, es1 + es2, fuel) == Ok::<Seq<(Seq<u8>, u64)>, ObjectError>(
            blobs_from(m, es1, fuel).unwrap() + blobs_from(m, es2, fuel).unwrap(),
        ),
    decreases es1.len(),
{
    if es1.len() == 0 {
        assert(es1 + es2 =~= es2);
        assert(blobs_from(m, es1, fuel).unwrap() + blobs_from(m, es2, fuel).unwrap() =~= blobs_from(
            m,
            es2,
            fuel,
        ).unwrap());
    } else {
        let e = es1[0];
        assert((es1 + es2)[0] == e);
        assert((es1 + es2).skip(1) =~= es1.skip(1) + es2);
        lemma_blobs_from_append(m, es1.skip(1), es2, fuel);
        if e.kind is Blob {
            assert(seq![(e.name, e.hash)] + (blobs_from(m, es1.skip(1), fuel).unwrap()
                + blobs_from(m, es2, fuel).unwrap()) =~= (seq![(e.name, e.hash)] + blobs_from(
                m,
                es1.skip(1),
                fuel,
            ).unwrap()) + blobs_from(m, es2, fuel).unwrap());
        } else {
            let sub = parse_entries(m[e.hash]).unwrap();
            let subpairs = blobs_from(m, sub, (fuel - 1) as nat).unwrap();
            let mapped = subpairs.map_values(|q: (Seq<u8>, u64)| (e.name + seq![SLASH] + q.0, q.1));
            assert(mapped + (blobs_from(m, es1.skip(1), fuel).unwrap() + blobs_from(
                m,
                es2,
                fuel,
            ).unwrap()) =~= (mapped + blobs_from(m, es1.skip(1), fuel).unwrap()) + blobs_from(
                m,
                es2,
                fuel,
            ).unwrap());
        }
    }
}

/// A successful walk is insensitive to extra fuel: any fuel at least as
/// large lists exactly the same paths, so which sufficient bound a caller
/// walks with does not matter.
pub proof fn lemma_files_from_fuel_mono(m: Map<u64, Seq<u8>>, es: Seq<EntryModel>, f1: nat, f2: nat)
    requires
        f1 <= f2,
        files_from(m, es, f1) is Ok,
    ensures
        files_from(m, es, f2) == files_from(m, es, f1),
    decreases f1, es.len(),
{
    if es.len() == 0 {
    } else {
        let e = es[0];
        if e.kind is Blob {
            lemma_files_from_fuel_mono(m, es.skip(1), f1, f2);
        } else {
            let sub = parse_entries(m[e.hash]).unwrap();
            lemma_files_from_fuel_mono(m, sub, (f1 - 1) as nat, (f2 - 1) as nat);
            lemma_files_from_fuel_mono(m, es.skip(1), f1, f2);
        }
    }
}

/// `lemma_files_from_fuel_mono`, for the blob-listing walk.
pub proof fn lemma_blobs_from_fuel_mono(m: Map<u64, Seq<u8>>, es: Seq<EntryModel>, f1: nat, f2: nat)
    requires
        f1 <= f2,
        blobs_from(m, es, f1) is Ok,
    ensures
        blobs_from(m, es, f2) == blobs_from(m, es, f1),
    decreases f1, es.len(),
{
    if es.len() == 0 {
    } else {
        let e = es[0];
        if e.kind is Blob {
            lemma_blobs_from_fuel_mono(m, es.skip(1), f1, f2);
        } else {
            let sub = parse_entries(m[e.hash]).unwrap();
            lemma_blobs_from_fuel_mono(m, sub, (f1 - 1) as nat, (f2 - 1) as nat);
            lemma_blobs_from_fuel_mono(m, es.skip(1), f1, f2);
        }
    }
}

/// Completeness of one directory level: no tracked file below `prefix` is
/// omitted by the builder's scan. A direct file becomes a blob entry with
/// its base name; a deeper file's first subdirectory becomes a tree entry,
/// unless that subdirectory was already seen and is handled by the recursive
/// call made when it was first met.
pub proof fn lemma_level_entries_complete(
    files: Seq<FileModel>,
    prefix: Seq<u8>,
    i: int,
    seen: Set<Seq<u8>>,
    j: int,
)
    requires
        0 <= i <= j < files.len(),
        under_prefix(files[j].path, prefix),
    ensures
        ({
            let rem = files[j].path.subrange(off_of(prefix), files[j].path.len() as int);
            match find_byte(rem, SLASH) {
                None => level_entries(files, prefix, i, seen).contains(
                    (EntryKind::Blob, files[j].mode, rem),
                ),
                Some(sp) => seen.contains(rem.take(sp)) || level_entries(
                    files,
                    prefix,
                    i,
                    seen,
                ).contains((EntryKind::Tree, dir_mode_spec(), rem.take(sp))),
            }
        }),
    decreases files.len() - i,
{
    let rem = files[j].path.subrange(off_of(prefix), files[j].path.len() as int);
    let here = level_entries(files, prefix, i, seen);
    if i == j {
        match find_byte(rem, SLASH) {
            None => {
                assert(here[0] == (EntryKind::Blob, files[j].mode, rem));
            },
            Some(sp) => {
                if !seen.contains(rem.take(sp)) {
                    assert(here[0] == (EntryKind::Tree, dir_mode_spec(), rem.take(sp)));
                }
            },
        }
    } else {
        let p = files[i].path;
        if under_prefix(p, prefix) {
            let rem_i = p.subrange(off_of(prefix), p.len() as int);
            match find_byte(rem_i, SLASH) {
                None => {
                    lemma_level_entries_complete(files, prefix, i + 1, seen, j);
                    lemma_contains_lift(
                        seq![(EntryKind::Blob, files[i].mode, rem_i)],
                        level_entries(files, prefix, i + 1, seen),
                    );
                },
                Some(sp_i) => {
                    let name_i = rem_i.take(sp_i);
                    if seen.contains(name_i) {
                        lemma_level_entries_complete(files, prefix, i + 1, seen, j);
                    } else {
                        lemma_level_entries_complete(files, prefix, i + 1, seen.insert(name_i), j);
                        match find_byte(rem, SLASH) {
                            None => {
                                lemma_contains_lift(
                                    seq![(EntryKind::Tree, dir_mode_spec(), name_i)],
                                    level_entries(files, prefix, i + 1, seen.insert(name_i)),
                                );
                            },
                            Some(sp) => {
                                if seen.insert(name_i).contains(rem.take(sp)) && !seen.contains(
                                    rem.take(sp),
                                ) {
                                    assert(rem.take(sp) == name_i);
                                    assert(here[0] == (
                                        EntryKind::Tree,
                                        dir_mode_spec(),
                                        rem.take(sp),
                                    ));
                                } else {
                                    lemma_contains_lift(
                                        seq![(EntryKind::Tree, dir_mode_spec(), name_i)],
                                        level_entries(files, prefix, i + 1, seen.insert(name_i)),
                                    );
                                }
                            },
                        }
                    }
                },
            }
        } else {
            lemma_level_entries_complete(files, prefix, i + 1, seen, j);
        }
    }
}

/// Soundness of one directory level: the builder's scan invents nothing.
/// Every entry it emits for `prefix` comes from some tracked file below it:
/// a blob entry is a direct file with its base name and captured mode, a
/// tree entry is the first subdirectory component of some deeper file.
pub proof fn lemma_level_entries_sound(
    files: Seq<FileModel>,
    prefix: Seq<u8>,
    i: int,
    seen: Set<Seq<u8>>,
    k: int,
)
    requires
        0 <= i <= files.len(),
        0 <= k < level_entries(files, prefix, i, seen).len(),
    ensures
        ({
            let e = level_entries(files, prefix, i, seen)[k];
            exists|j: int|
                0 <= j < files.len() && under_prefix(#[trigger] files[j].path, prefix) && ({
                    let rem = files[j].path.subrange(off_of(prefix), files[j].path.len() as int);
                    if e.0 is Blob {
                        find_byte(rem, SLASH) is None && e.1 == files[j].mode && e.2 == rem
                    } else {
                        e.1 == dir_mode_spec() && (find_byte(rem, SLASH) matches Some(sp) && e.2
                            == rem.take(sp))
                    }
                })
        }),
    decreases files.len() - i,
{
    let here = level_entries(files, prefix, i, seen);
    let p = files[i].path;
    let rem_i = p.subrange(off_of(prefix), p.len() as int);
    if under_prefix(p, prefix) {
        match find_byte(rem_i, SLASH) {
            None => {
                if k == 0 {
                    assert(here[0] == (EntryKind::Blob, files[i].mode, rem_i));
                    assert(under_prefix(files[i].path, prefix));
                } else {
                    lemma_level_entries_sound(files, prefix, i + 1, seen, k - 1);
                }
            },
            Some(sp_i) => {
                let name_i = rem_i.take(sp_i);
                if seen.contains(name_i) {
                    lemma_level_entries_sound(files, prefix, i + 1, seen, k);
                } else {
                    if k == 0 {
                        assert(here[0] == (EntryKind::Tree, dir_mode_spec(), name_i));
                        assert(under_prefix(files[i].path, prefix));
                    } else {
                        lemma_level_entries_sound(files, prefix, i + 1, seen.insert(name_i), k - 1);
                    }
                }
            },
        }
    } else {
        lemma_level_entries_sound(files, prefix, i + 1, seen, k);
    }
}

/// What a tail of a concatenation holds, the whole holds.
proof fn lemma_contains_lift(
    a: Seq<(EntryKind, Seq<u8>, Seq<u8>)>,
    b: Seq<(EntryKind, Seq<u8>, Seq<u8>)>,
)
    ensures
        forall|x: (EntryKind, Seq<u8>, Seq<u8>)| b.contains(x) ==> #[trigger] (a + b).contains(x),
{
    assert forall|x: (EntryKind, Seq<u8>, Seq<u8>)| b.contains(x) implies #[trigger] (a
        + b).contains(x) by {
        let idx = choose|idx: int| 0 <= idx < b.len() && b[idx] == x;
        assert((a + b)[a.len() + idx] == x);
    }
}

/// Every tree entry of the list references a stored, parseable serialized
/// entry list: what a traversal will load and read.
pub open spec fn tree_children_stored(es: Seq<EntryModel>, m: Map<u64, Seq<u8>>) -> bool {
    forall|k: int|
        0 <= k < es.len() && (#[trigger] es[k]).kind is Tree ==> m.contains_key(es[k].hash)
            && parse_entries(m[es[k].hash]) is Some
}

/// Stored children stay stored: the store only grows, and never changes what
/// a key holds.
proof fn lemma_children_stored_frame(
    es: Seq<EntryModel>,
    m1: Map<u64, Seq<u8>>,
    m2: Map<u64, Seq<u8>>,
)
    requires
        tree_children_stored(es, m1),
        m1.submap_of(m2),
    ensures
        tree_children_stored(es, m2),
{
    assert forall|k: int|
        0 <= k < es.len() && (#[trigger] es[k]).kind is Tree implies m2.contains_key(es[k].hash)
            && parse_entries(m2[es[k].hash]) is Some by {
        assert(m1.contains_key(es[k].hash) && parse_entries(m1[es[k].hash]) is Some);
        assert(m1.dom().contains(es[k].hash));
        assert(m2.dom().contains(es[k].hash) && m2[es[k].hash] == m1[es[k].hash]);
    }
}

/// The directory prefix that the builder descends into for a first-seen
/// subdirectory `name` of the directory named by `prefix`.
pub open spec fn child_prefix(prefix: Seq<u8>, name: Seq<u8>) -> Seq<u8> {
    if prefix.len() == 0 {
        name
    } else {
        prefix + seq![SLASH] + name
    }
}

/// The builder, as a mathematical function: scanning `files` from index `i`
/// with the subdirectory names already `seen` and the entries `acc` already
/// emitted, it returns the entry list of the directory named by `prefix` and
/// the store contents after every save the scan performs, or the error that
/// stopped it and the store contents at that moment. A direct file saves its
/// blob; a first-seen subdirectory is built recursively against the store so
/// far; when the scan ends, the assembled entry list itself is serialized
/// and saved. Exactly this function is what `Tree::new` promises to compute.
pub open spec fn build_level(
    m: Map<u64, Seq<u8>>,
    files: Seq<FileModel>,
    prefix: Seq<u8>,
    i: int,
    seen: Set<Seq<u8>>,
    acc: Seq<EntryModel>,
) -> (Result<Seq<EntryModel>, ObjectError>, Map<u64, Seq<u8>>)
    decreases max_path_len(files) - prefix.len(), files.len() - i,
        via build_level_dec
{
    if i < 0 || i >= files.len() {
        if save_ok(m, encode_entries(acc)) {
            (Ok(acc), saved_map(m, encode_entries(acc)))
        } else {
            (Err(ObjectError::HashMismatch), m)
        }
    } else {
        let p = files[i].path;
        if under_prefix(p, prefix) {
            let rem = p.subrange(off_of(prefix), p.len() as int);
            match find_byte(rem, SLASH) {
                None => {
                    if save_ok(m, files[i].data) {
                        build_level(
                            saved_map(m, files[i].data),
                            files,
                            prefix,
                            i + 1,
                            seen,
                            acc.push(
                                EntryModel {
                                    kind: EntryKind::Blob,
                                    mode: files[i].mode,
                                    hash: content_hash(files[i].data),
                                    name: rem,
                                },
                            ),
                        )
                    } else {
                        (Err(ObjectError::HashMismatch), m)
                    }
                },
                Some(sp) => {
                    let name = rem.take(sp);
                    if sp < 1 {
                        (Err(ObjectError::FormatError), m)
                    } else if seen.contains(name) {
                        build_level(m, files, prefix, i + 1, seen, acc)
                    } else {
                        let sub = build_level(
                            m,
                            files,
                            child_prefix(prefix, name),
                            0,
                            Set::empty(),
                            Seq::empty(),
                        );
                        match sub.0 {
                            Err(x) => (Err(x), sub.1),
                            Ok(sub_es) => build_level(
                                sub.1,
                                files,
                                prefix,
                                i + 1,
                                seen.insert(name),
                                acc.push(
                                    EntryModel {
                                        kind: EntryKind::Tree,
                                        mode: dir_mode_spec(),
                                        hash: content_hash(encode_entries(sub_es)),
                                        name,
                                    },
                                ),
                            ),
                        }
                    }
                },
            }
        } else {
            build_level(m, files, prefix, i + 1, seen, acc)
        }
    }
}

#[via_fn]
proof fn build_level_dec(
    m: Map<u64, Seq<u8>>,
    files: Seq<FileModel>,
    prefix: Seq<u8>,
    i: int,
    seen: Set<Seq<u8>>,
    acc: Seq<EntryModel>,
) {
    if 0 <= i < files.len() {
        let p = files[i].path;
        if under_prefix(p, prefix) {
            let rem = p.subrange(off_of(prefix), p.len() as int);
            crate::codec::lemma_find_byte_props(rem, SLASH);
            lemma_max_path_len(files, i);
            match find_byte(rem, SLASH) {
                None => {},
                Some(sp) => {
                    if sp >= 1 {
                        let name = rem.take(sp);
                        assert(child_prefix(prefix, name).len() == off_of(prefix) + sp);
                        assert(off_of(prefix) + sp < p.len());
                    }
                },
            }
        }
    }
}

/// The whole build for the directory named by `prefix`: the scan from the
/// start, with nothing seen and nothing emitted.
pub open spec fn build_spec(m: Map<u64, Seq<u8>>, files: Seq<FileModel>, prefix: Seq<u8>) -> (
    Result<Seq<EntryModel>, ObjectError>,
    Map<u64, Seq<u8>>,
) {
    build_level(m, files, prefix, 0, Set::empty(), Seq::empty())
}

/// Whether `data` is held by store contents `m` under its own content hash.
pub open spec fn blob_stored(m: Map<u64, Seq<u8>>, data: Seq<u8>) -> bool {
    m.contains_key(content_hash(data)) && m[content_hash(data)] == data
}

proof fn lemma_blob_stored_frame(m1: Map<u64, Seq<u8>>, m2: Map<u64, Seq<u8>>, data: Seq<u8>)
    requires
        blob_stored(m1, data),
        m1.submap_of(m2),
    ensures
        blob_stored(m2, data),
{
    assert(m1.dom().contains(content_hash(data)));
    assert(m2.dom().contains(content_hash(data)) && m2[content_hash(data)] == m1[content_hash(
        data,
    )]);
}

/// The build only adds to the store: whatever it starts from is contained in
/// what it leaves behind, successful or not.
proof fn lemma_build_level_grows(
    m: Map<u64, Seq<u8>>,
    files: Seq<FileModel>,
    prefix: Seq<u8>,
    i: int,
    seen: Set<Seq<u8>>,
    acc: Seq<EntryModel>,
)
    ensures
        m.submap_of(build_level(m, files, prefix, i, seen, acc).1),
    decreases max_path_len(files) - prefix.len(), files.len() - i,
{
    let out = build_level(m, files, prefix, i, seen, acc);
    if i < 0 || i >= files.len() {
        if save_ok(m, encode_entries(acc)) {
            lemma_saved_map_extends(m, encode_entries(acc));
        } else {
            assert(m.submap_of(m));
        }
    } else {
        let p = files[i].path;
        if under_prefix(p, prefix) {
            let rem = p.subrange(off_of(prefix), p.len() as int);
            crate::codec::lemma_find_byte_props(rem, SLASH);
            lemma_max_path_len(files, i);
            match find_byte(rem, SLASH) {
                None => {
                    if save_ok(m, files[i].data) {
                        let m1 = saved_map(m, files[i].data);
                        let acc1 = acc.push(
                            EntryModel {
                                kind: EntryKind::Blob,
                                mode: files[i].mode,
                                hash: content_hash(files[i].data),
                                name: rem,
                            },
                        );
                        lemma_saved_map_extends(m, files[i].data);
                        lemma_build_level_grows(m1, files, prefix, i + 1, seen, acc1);
                        lemma_submap_trans(m, m1, out.1);
                    } else {
                        assert(m.submap_of(m));
                    }
                },
                Some(sp) => {
                    let name = rem.take(sp);
                    if sp < 1 {
                        assert(m.submap_of(m));
                    } else if seen.contains(name) {
                        lemma_build_level_grows(m, files, prefix, i + 1, seen, acc);
                    } else {
                        let subp = child_prefix(prefix, name);
                        assert(subp.len() == off_of(prefix) + sp);
                        assert(off_of(prefix) + sp < p.len());
                        let inner = build_level(m, files, subp, 0, Set::empty(), Seq::empty());
                        lemma_build_level_grows(m, files, subp, 0, Set::empty(), Seq::empty());
                        match inner.0 {
                            Err(_x) => {},
                            Ok(sub_es) => {
                                let acc1 = acc.push(
                                    EntryModel {
                                        kind: EntryKind::Tree,
                                        mode: dir_mode_spec(),
                                        hash: content_hash(encode_entries(sub_es)),
                                        name,
                                    },
                                );
                                lemma_build_level_grows(inner.1, files, prefix, i + 1, seen.insert(
                                    name,
                                ), acc1);
                                lemma_submap_trans(m, inner.1, out.1);
                            },
                        }
                    }
                },
            }
        } else {
            lemma_build_level_grows(m, files, prefix, i + 1, seen, acc);
        }
    }
}

/// A file lying below a directory whose first remaining component is `name`
/// lies below the subdirectory the builder descends into for `name`.
proof fn lemma_deeper_under_child(p: Seq<u8>, prefix: Seq<u8>, sp: int)
    requires
        valid_path(p),
        under_prefix(p, prefix),
        find_byte(p.subrange(off_of(prefix), p.len() as int), SLASH) == Some(sp),
        sp >= 1,
    ensures
        under_prefix(
            p,
            child_prefix(prefix, p.subrange(off_of(prefix), p.len() as int).take(sp)),
        ),
{
    let off = off_of(prefix);
    let rem = p.subrange(off, p.len() as int);
    let name = rem.take(sp);
    let sub = child_prefix(prefix, name);
    crate::codec::lemma_find_byte_props(rem, SLASH);
    assert(sub.len() == off + sp);
    assert(p[off + sp] == SLASH);
    assert(off + sp < p.len() - 1) by {
        assert(p[p.len() - 1] != SLASH);
    }
    assert(p.take(sub.len() as int) =~= sub) by {
        assert forall|j: int| 0 <= j < sub.len() implies p[j] == sub[j] by {
            if prefix.len() == 0 {
                assert(sub[j] == name[j] && name[j] == rem[j]);
            } else if j < prefix.len() {
                assert(p.take(prefix.len() as int)[j] == p[j]);
                assert(sub[j] == prefix[j]);
            } else if j == prefix.len() {
                assert(sub[j] == SLASH);
            } else {
                assert(sub[j] == name[j - off] && name[j - off] == rem[j - off]);
            }
        }
    }
}

/// Whether the builder's scan of the directory named by `prefix`, with the
/// subdirectory names in `seen` already handled, is itself responsible for
/// file `j`: always for a direct file, and for a deeper file unless its
/// first component was already seen (an earlier descent then covered it).
pub open spec fn routed_here(
    files: Seq<FileModel>,
    prefix: Seq<u8>,
    seen: Set<Seq<u8>>,
    j: int,
) -> bool {
    let rem = files[j].path.subrange(off_of(prefix), files[j].path.len() as int);
    match find_byte(rem, SLASH) {
        None => true,
        Some(sp) => !seen.contains(rem.take(sp)),
    }
}

/// Blob persistence: a successful build leaves, in the store it returns,
/// the content of every file it was responsible for, keyed by that
/// content's hash. At the top of the build nothing is yet seen, so this
/// covers every tracked file below the prefix.
proof fn lemma_build_stores_blobs(
    m: Map<u64, Seq<u8>>,
    files: Seq<FileModel>,
    prefix: Seq<u8>,
    i: int,
    seen: Set<Seq<u8>>,
    acc: Seq<EntryModel>,
)
    requires
        0 <= i,
        valid_input(files),
        build_level(m, files, prefix, i, seen, acc).0 is Ok,
    ensures
        forall|j: int|
            0 <= j < files.len() && i <= j && under_prefix((#[trigger] files[j]).path, prefix)
                && routed_here(files, prefix, seen, j) ==> blob_stored(
                build_level(m, files, prefix, i, seen, acc).1,
                files[j].data,
            ),
    decreases max_path_len(files) - prefix.len(), files.len() - i,
{
    let out = build_level(m, files, prefix, i, seen, acc);
    if i < 0 || i >= files.len() {
    } else {
        let p = files[i].path;
        if under_prefix(p, prefix) {
            let rem = p.subrange(off_of(prefix), p.len() as int);
            crate::codec::lemma_find_byte_props(rem, SLASH);
            lemma_max_path_len(files, i);
            match find_byte(rem, SLASH) {
                None => {
                    let m1 = saved_map(m, files[i].data);
                    let acc1 = acc.push(
                        EntryModel {
                            kind: EntryKind::Blob,
                            mode: files[i].mode,
                            hash: content_hash(files[i].data),
                            name: rem,
                        },
                    );
                    lemma_build_stores_blobs(m1, files, prefix, i + 1, seen, acc1);
                    lemma_build_level_grows(m1, files, prefix, i + 1, seen, acc1);
                    assert forall|j: int|
                        0 <= j < files.len() && i <= j && under_prefix(
                            (#[trigger] files[j]).path,
                            prefix,
                        ) && routed_here(files, prefix, seen, j) implies blob_stored(
                        out.1,
                        files[j].data,
                    ) by {
                        if j == i {
                            assert(blob_stored(m1, files[i].data));
                            lemma_blob_stored_frame(m1, out.1, files[i].data);
                        }
                    }
                },
                Some(sp) => {
                    let name = rem.take(sp);
                    if sp < 1 {
                    } else if seen.contains(name) {
                        lemma_build_stores_blobs(m, files, prefix, i + 1, seen, acc);
                    } else {
                        let subp = child_prefix(prefix, name);
                        assert(subp.len() == off_of(prefix) + sp);
                        assert(off_of(prefix) + sp < p.len());
                        let inner = build_level(m, files, subp, 0, Set::empty(), Seq::empty());
                        lemma_build_stores_blobs(m, files, subp, 0, Set::empty(), Seq::empty());
                        let sub_es = inner.0.unwrap();
                        let acc1 = acc.push(
                            EntryModel {
                                kind: EntryKind::Tree,
                                mode: dir_mode_spec(),
                                hash: content_hash(encode_entries(sub_es)),
                                name,
                            },
                        );
                        lemma_build_stores_blobs(inner.1, files, prefix, i + 1, seen.insert(name),
                            acc1);
                        lemma_build_level_grows(inner.1, files, prefix, i + 1, seen.insert(name),
                            acc1);
                        assert forall|j: int|
                            0 <= j < files.len() && i <= j && under_prefix(
                                (#[trigger] files[j]).path,
                                prefix,
                            ) && routed_here(files, prefix, seen, j) implies blob_stored(
                            out.1,
                            files[j].data,
                        ) by {
                            let pj = files[j].path;
                            let remj = pj.subrange(off_of(prefix), pj.len() as int);
                            match find_byte(remj, SLASH) {
                                None => {
                                    assert(routed_here(files, prefix, seen.insert(name), j));
                                },
                                Some(spj) => {
                                    let namej = remj.take(spj);
                                    crate::codec::lemma_find_byte_props(remj, SLASH);
                                    if namej == name {
                                        assert(spj == namej.len() && namej.len() == sp);
                                        lemma_deeper_under_child(pj, prefix, spj);
                                        assert(routed_here(files, subp, Set::empty(), j)) by {
                                            let remj2 = pj.subrange(
                                                off_of(subp),
                                                pj.len() as int,
                                            );
                                            match find_byte(remj2, SLASH) {
                                                None => {},
                                                Some(q) => {
                                                    assert(!Set::<Seq<u8>>::empty().contains(
                                                        remj2.take(q),
                                                    ));
                                                },
                                            }
                                        }
                                        assert(blob_stored(inner.1, files[j].data));
                                        lemma_blob_stored_frame(inner.1, out.1, files[j].data);
                                    } else {
                                        assert(!seen.insert(name).contains(namej));
                                        assert(routed_here(files, prefix, seen.insert(name), j));
                                    }
                                },
                            }
                        }
                    }
                },
            }
        } else {
            lemma_build_stores_blobs(m, files, prefix, i + 1, seen, acc);
        }
    }
}

/// Whether path `p` lies strictly below `prefix`.
fn is_under(p: &Vec<u8>, prefix: &Vec<u8>) -> (r: bool)
    ensures
        r == under_prefix(p@, prefix@),
{
    if prefix.len() == 0 {
        return p.len() > 0;
    }
    if p.len() <= prefix.len() {
        return false;
    }
    if p.len() - prefix.len() <= 1 {
        return false;
    }
    if p[prefix.len()] != SLASH {
        return false;
    }
    let mut i: usize = 0;
    while i < prefix.len()
        invariant
            0 <= i <= prefix@.len(),
            prefix@.len() + 1 < p@.len(),
            forall|j: int| 0 <= j < i ==> p@[j] == prefix@[j],
        decreases prefix@.len() - i,
    {
        if p[i] != prefix[i] {
            proof {
                assert(p@.take(prefix@.len() as int)[i as int] != prefix@[i as int]);
            }
            return false;
        }
        i = i + 1;
    }
    proof {
        assert(p@.take(prefix@.len() as int) =~= prefix@);
    }
    true
}

/// Whether `name` already stands in the list of first-seen subdirectories.
fn name_seen(seen: &Vec<Vec<u8>>, name: &Vec<u8>) -> (r: bool)
    ensures
        r == exists|j: int| 0 <= j < seen@.len() && #[trigger] seen@[j]@ == name@,
{
    let mut i: usize = 0;
    while i < seen.len()
        invariant
            0 <= i <= seen@.len(),
            forall|j: int| 0 <= j < i ==> #[trigger] seen@[j]@ != name@,
        decreases seen@.len() - i,
    {
        if bytes_eq(&seen[i], name) {
            return true;
        }
        i = i + 1;
    }
    false
}

/// Builds and persists the tree for the directory named by `prefix`, scanning
/// the full tracked list top to bottom: each file directly in the directory
/// becomes a blob entry; each first-seen subdirectory is built recursively,
/// persisted, and becomes a tree entry; later files under an already-seen
/// subdirectory are handled inside that recursive call. Entry order is
/// discovery order, not lexicographic. Every child object is persisted before
/// the parent embedding its hash, and the assembled tree is persisted last:
/// the parent's hash depends on the children's hashes.
#[verifier::rlimit(100)]
fn build_tree(store: &mut Store, files: &Vec<TrackedFile>, prefix: &Vec<u8>) -> (r: Result<
    Tree,
    ObjectError,
>)
    requires
        old(store).wf(),
        valid_input(file_models(files@)),
        prefix@.len() <= max_path_len(file_models(files@)),
    ensures
        final(store).wf(),
        old(store)@.submap_of(final(store)@),
        r matches Ok(t) ==> t.wf() && t.sealed() && final(store)@.contains_key(t.hash@)
            && final(store)@[t.hash@] == encode_entries(t.entry_models()),
        r matches Ok(t) ==> shapes_of(t.entry_models()) == level_entries(
            file_models(files@),
            prefix@,
            0,
            Set::empty(),
        ),
        r matches Ok(t) ==> blob_hashes_faithful(t.entry_models(), file_models(files@), prefix@),
        r matches Ok(t) ==> tree_children_stored(t.entry_models(), final(store)@),
        r matches Ok(t) ==> forall|fl: nat|
            fl >= max_path_len(file_models(files@)) - prefix@.len() ==> #[trigger] files_from(
                final(store)@,
                t.entry_models(),
                fl,
            ) is Ok && #[trigger] blobs_from(final(store)@, t.entry_models(), fl) is Ok,
        r matches Ok(t) ==> forall|j: int|
            0 <= j < file_models(files@).len() && under_prefix(
                (#[trigger] file_models(files@)[j]).path,
                prefix@,
            ) ==> blob_stored(final(store)@, file_models(files@)[j].data),
        r matches Err(e) ==> e == ObjectError::HashMismatch,
        ({
            let model = build_spec(old(store)@, file_models(files@), prefix@);
            &&& (r is Ok <==> model.0 is Ok)
            &&& final(store)@ == model.1
            &&& (r matches Ok(t) ==> model.0 == Ok::<Seq<EntryModel>, ObjectError>(
                t.entry_models(),
            ))
            &&& (r matches Err(e) ==> model.0 == Err::<Seq<EntryModel>, ObjectError>(e))
        }),
    decreases max_path_len(file_models(files@)) - prefix@.len(),
{
    let ghost fm = file_models(files@);
    let mut entries: Vec<TreeEntry> = Vec::new();
    let mut seen: Vec<Vec<u8>> = Vec::new();
    let ghost mut seen_set: Set<Seq<u8>> = Set::empty();
    proof {
        assert(entry_views(entries@) =~= Seq::<EntryModel>::empty());
    }
    let mut i: usize = 0;
    while i < files.len()
        invariant
            0 <= i <= files@.len(),
            fm == file_models(files@),
            valid_input(fm),
            prefix@.len() <= max_path_len(fm),
            store.wf(),
            old(store)@.submap_of(store@),
            wf_entries(entries@.map_values(|e: TreeEntry| e@)),
            forall|n: Seq<u8>| #[trigger] seen_set.contains(n) <==> (exists|j: int|
                0 <= j < seen@.len() && seen@[j]@ == n),
            level_entries(fm, prefix@, 0, Set::empty()) == shapes_of(
                entries@.map_values(|e: TreeEntry| e@),
            ) + level_entries(fm, prefix@, i as int, seen_set),
            blob_hashes_faithful(entries@.map_values(|e: TreeEntry| e@), fm, prefix@),
            tree_children_stored(entries@.map_values(|e: TreeEntry| e@), store@),
            forall|fl: nat|
                fl >= max_path_len(fm) - prefix@.len() ==> #[trigger] files_from(
                    store@,
                    entry_views(entries@),
                    fl,
                ) is Ok && #[trigger] blobs_from(store@, entry_views(entries@), fl) is Ok,
            build_spec(old(store)@, fm, prefix@) == build_level(
                store@,
                fm,
                prefix@,
                i as int,
                seen_set,
                entry_views(entries@),
            ),
        decreases files@.len() - i,
    {
        let p = &files[i].path;
        let plen: usize = p.len();
        proof {
            assert(fm.len() == files@.len());
            assert(fm[i as int] == files@[i as int]@);
            assert(valid_path(fm[i as int].path) && valid_mode(fm[i as int].mode));
            assert(fm[i as int].path == p@ && fm[i as int].mode == files@[i as int].mode@);
        }
        if is_under(p, prefix) {
            let ghost rem = p@.subrange(off_of(prefix@), p@.len() as int);
            let off: usize = if prefix.len() == 0 {
                0
            } else {
                prefix.len() + 1
            };
            match crate::codec::find_range(p, off, p.len(), SLASH) {
                None => {
                    let ghost store_pre = store@;
                    let blob = match Blob::new(store, copy_bytes(&files[i].data)) {
                        Ok(b) => b,
                        Err(e) => {
                            proof {
                                lemma_saved_map_extends(store_pre, files@[i as int].data@);
                                lemma_submap_trans(old(store)@, store_pre, store@);
                                assert(store@ == store_pre);
                                assert(fm[i as int].data == files@[i as int].data@);
                                assert(build_level(
                                    store@,
                                    fm,
                                    prefix@,
                                    i as int,
                                    seen_set,
                                    entry_views(entries@),
                                ) == (
                                    Err::<Seq<EntryModel>, ObjectError>(
                                        ObjectError::HashMismatch,
                                    ),
                                    store@,
                                ));
                            }
                            return Err(e);
                        },
                    };
                    proof {
                        lemma_saved_map_extends(store_pre, files@[i as int].data@);
                        lemma_submap_trans(old(store)@, store_pre, store@);
                        lemma_children_stored_frame(
                            entries@.map_values(|e: TreeEntry| e@),
                            store_pre,
                            store@,
                        );
                        assert forall|fl: nat|
                            fl >= max_path_len(fm) - prefix@.len() implies #[trigger] files_from(
                            store@,
                            entry_views(entries@),
                            fl,
                        ) is Ok && #[trigger] blobs_from(store@, entry_views(entries@), fl) is Ok by {
                            assert(files_from(store_pre, entry_views(entries@), fl) is Ok
                                && blobs_from(store_pre, entry_views(entries@), fl) is Ok);
                            lemma_files_from_frame(store_pre, store@, entry_views(entries@), fl);
                            lemma_blobs_from_frame(store_pre, store@, entry_views(entries@), fl);
                        }
                    }
                    let name = crate::codec::subvec(p, off, p.len());
                    let entry = TreeEntry {
                        kind: EntryKind::Blob,
                        mode: copy_bytes(&files[i].mode),
                        object_hash: blob.get_hash(),
                        name,
                    };
                    proof {
                        assert(wf_entry(entry@)) by {
                            assert(forall|j: int|
                                0 <= j < entry@.name.len() ==> #[trigger] entry@.name[j] == p@[off
                                    + j]);
                        }
                        let evs = entries@.map_values(|e: TreeEntry| e@);
                        assert(entries@.push(entry).map_values(|e: TreeEntry| e@) =~= evs.push(
                            entry@,
                        ));
                        assert(off as int == off_of(prefix@));
                        assert(entry@.name =~= rem);
                        assert(shape_of(entry@) == (EntryKind::Blob, fm[i as int].mode, rem));
                        assert(shapes_of(evs.push(entry@)) =~= shapes_of(evs).push(
                            shape_of(entry@),
                        ));
                        assert(level_entries(fm, prefix@, i as int, seen_set) == seq![
                            (EntryKind::Blob, fm[i as int].mode, rem),
                        ] + level_entries(fm, prefix@, i + 1, seen_set));
                        assert(shapes_of(evs).push(shape_of(entry@)) + level_entries(
                            fm,
                            prefix@,
                            i + 1,
                            seen_set,
                        ) =~= shapes_of(evs) + level_entries(fm, prefix@, i as int, seen_set));
                        assert(tree_children_stored(evs.push(entry@), store@)) by {
                            assert forall|k: int|
                                0 <= k < evs.push(entry@).len() && (#[trigger] evs.push(
                                    entry@,
                                )[k]).kind is Tree implies store@.contains_key(evs.push(
                                entry@,
                            )[k].hash) && parse_entries(store@[evs.push(entry@)[k].hash]) is Some by {
                                assert(k < evs.len());
                                assert(evs[k].kind is Tree);
                            }
                        }
                        assert forall|fl: nat|
                            fl >= max_path_len(fm) - prefix@.len() implies #[trigger] files_from(
                            store@,
                            entry_views(entries@.push(entry)),
                            fl,
                        ) is Ok && #[trigger] blobs_from(
                            store@,
                            entry_views(entries@.push(entry)),
                            fl,
                        ) is Ok by {
                            assert(entry_views(entries@) == evs);
                            assert(files_from(store@, evs, fl) is Ok);
                            assert(blobs_from(store@, evs, fl) is Ok);
                            assert(seq![entry@].skip(1) =~= Seq::<EntryModel>::empty());
                            assert(files_from(store@, seq![entry@].skip(1), fl) is Ok);
                            assert(files_from(store@, seq![entry@], fl) is Ok);
                            assert(blobs_from(store@, seq![entry@].skip(1), fl) is Ok);
                            assert(blobs_from(store@, seq![entry@], fl) is Ok);
                            lemma_files_from_append(store@, evs, seq![entry@], fl);
                            lemma_blobs_from_append(store@, evs, seq![entry@], fl);
                            assert(evs + seq![entry@] =~= evs.push(entry@));
                            assert(entry_views(entries@.push(entry)) =~= evs.push(entry@));
                        }
                        assert(fm[i as int].data == files@[i as int].data@);
                        assert(save_ok(store_pre, fm[i as int].data));
                        assert(entry@ == EntryModel {
                            kind: EntryKind::Blob,
                            mode: fm[i as int].mode,
                            hash: content_hash(fm[i as int].data),
                            name: rem,
                        });
                        assert(entry_views(entries@) == evs);
                        assert(entry_views(entries@.push(entry)) =~= evs.push(entry@));
                        assert(build_level(store_pre, fm, prefix@, i as int, seen_set, evs) == (
                        build_level(store@, fm, prefix@, i + 1, seen_set, evs.push(entry@))));
                        assert(blob_hashes_faithful(evs.push(entry@), fm, prefix@)) by {
                            assert forall|k: int|
                                0 <= k < evs.push(entry@).len() && (#[trigger] evs.push(
                                    entry@,
                                )[k]).kind is Blob implies exists|j: int|
                                0 <= j < fm.len() && under_prefix(
                                    (#[trigger] fm[j]).path,
                                    prefix@,
                                ) && evs.push(entry@)[k].name == fm[j].path.subrange(
                                    off_of(prefix@),
                                    fm[j].path.len() as int,
                                ) && evs.push(entry@)[k].hash == content_hash(fm[j].data) by {
                                if k < evs.len() {
                                    assert(evs[k].kind is Blob);
                                } else {
                                    assert(evs.push(entry@)[k] == entry@);
                                    assert(under_prefix(fm[i as int].path, prefix@));
                                    assert(entry@.name == fm[i as int].path.subrange(
                                        off_of(prefix@),
                                        fm[i as int].path.len() as int,
                                    ));
                                    assert(entry@.hash == content_hash(fm[i as int].data));
                                }
                            }
                        }
                    }
                    entries.push(entry);
                },
                Some(slash_abs) => {
                    proof {
                        assert(off as int == off_of(prefix@));
                        crate::codec::lemma_find_byte_props(rem, SLASH);
                    }
                    let name = crate::codec::subvec(p, off, slash_abs);
                    proof {
                        assert(rem.take(slash_abs - off) =~= p@.subrange(
                            off as int,
                            slash_abs as int,
                        ));
                        assert(slash_abs > off) by {
                            if prefix@.len() == 0 {
                                assert(p@[0] != SLASH);
                            } else {
                                assert(p@[prefix@.len() as int] == SLASH);
                                assert(!(p@[prefix@.len() as int] == SLASH && p@[prefix@.len()
                                    as int + 1] == SLASH));
                                assert(p@[off as int] != SLASH);
                            }
                        }
                    }
                    if !name_seen(&seen, &name) {
                        let ghost seen0 = seen@;
                        let ghost set0 = seen_set;
                        seen.push(copy_bytes(&name));
                        let mut sub_prefix = copy_bytes(prefix);
                        if prefix.len() > 0 {
                            sub_prefix.push(SLASH);
                        }
                        crate::codec::append_bytes(&mut sub_prefix, &name);
                        proof {
                            assert(p@[slash_abs as int] == SLASH);
                            assert(slash_abs < p@.len() - 1) by {
                                assert(p@[p@.len() - 1] != SLASH);
                            }
                            lemma_max_path_len(fm, i as int);
                            assert(fm[i as int].path.len() == p@.len());
                            assert(sub_prefix@.len() == slash_abs) by {
                                if prefix@.len() == 0 {
                                } else {
                                    assert(sub_prefix@.len() == prefix@.len() + 1 + (slash_abs
                                        - off));
                                }
                            }
                            assert(slash_abs > prefix@.len()) by {
                                if prefix@.len() == 0 {
                                    assert(p@[0] != SLASH);
                                }
                            }
                            assert(sub_prefix@ =~= child_prefix(
                                prefix@,
                                rem.take(slash_abs - off),
                            ));
                            assert(!set0.contains(rem.take(slash_abs - off)));
                        }
                        let ghost store_before = store@;
                        let sub_tree = match build_tree(store, files, &sub_prefix) {
                            Ok(t) => t,
                            Err(e) => {
                                proof {
                                    lemma_submap_trans(old(store)@, store_before, store@);
                                    assert(build_level(
                                        store_before,
                                        fm,
                                        prefix@,
                                        i as int,
                                        set0,
                                        entry_views(entries@),
                                    ) == (Err::<Seq<EntryModel>, ObjectError>(e), store@));
                                }
                                return Err(e);
                            },
                        };
                        proof {
                            lemma_submap_trans(old(store)@, store_before, store@);
                            lemma_children_stored_frame(
                                entries@.map_values(|e: TreeEntry| e@),
                                store_before,
                                store@,
                            );
                            assert forall|fl: nat|
                                fl >= max_path_len(fm) - prefix@.len() implies #[trigger]
                            files_from(store@, entry_views(entries@), fl) is Ok && #[trigger]
                            blobs_from(store@, entry_views(entries@), fl) is Ok by {
                                assert(files_from(store_before, entry_views(entries@), fl) is Ok
                                    && blobs_from(store_before, entry_views(entries@), fl) is Ok);
                                lemma_files_from_frame(
                                    store_before,
                                    store@,
                                    entry_views(entries@),
                                    fl,
                                );
                                lemma_blobs_from_frame(
                                    store_before,
                                    store@,
                                    entry_views(entries@),
                                    fl,
                                );
                            }
                        }
                        let entry = TreeEntry {
                            kind: EntryKind::Tree,
                            mode: dir_mode(),
                            object_hash: sub_tree.get_hash(),
                            name,
                        };
                        proof {
                            assert(wf_entry(entry@)) by {
                                assert(forall|j: int|
                                    0 <= j < entry@.name.len() ==> #[trigger] entry@.name[j]
                                        == p@[off + j]);
                                assert(forall|j: int|
                                    0 <= j < dir_mode_spec().len() ==> dir_mode_spec()[j] != 0x20
                                        && dir_mode_spec()[j] != 0x0a);
                            }
                            let evs = entries@.map_values(|e: TreeEntry| e@);
                            assert(entries@.push(entry).map_values(|e: TreeEntry| e@) =~= evs.push(
                                entry@,
                            ));
                            assert(!set0.contains(name@));
                            assert(shape_of(entry@) == (
                                EntryKind::Tree,
                                dir_mode_spec(),
                                rem.take(slash_abs - off),
                            ));
                            assert(shapes_of(evs.push(entry@)) =~= shapes_of(evs).push(
                                shape_of(entry@),
                            ));
                            assert(level_entries(fm, prefix@, i as int, set0) == seq![
                                (EntryKind::Tree, dir_mode_spec(), rem.take(slash_abs - off)),
                            ] + level_entries(fm, prefix@, i + 1, set0.insert(
                                rem.take(slash_abs - off),
                            )));
                            assert(shapes_of(evs).push(shape_of(entry@)) + level_entries(
                                fm,
                                prefix@,
                                i + 1,
                                set0.insert(name@),
                            ) =~= shapes_of(evs) + level_entries(fm, prefix@, i as int, set0));
                            assert forall|fl: nat|
                                fl >= max_path_len(fm) - prefix@.len() implies #[trigger]
                            files_from(store@, entry_views(entries@.push(entry)), fl) is Ok
                                && #[trigger] blobs_from(
                                store@,
                                entry_views(entries@.push(entry)),
                                fl,
                            ) is Ok by {
                                crate::codec::lemma_codec_round_trip(sub_tree.entry_models());
                                assert(entry_views(entries@) == evs);
                                assert(files_from(store@, evs, fl) is Ok);
                                assert(blobs_from(store@, evs, fl) is Ok);
                                assert(fl >= 1) by {
                                    assert(p@.len() >= slash_abs + 2);
                                }
                                assert((fl - 1) as nat >= max_path_len(fm) - sub_prefix@.len());
                                assert(files_from(
                                    store@,
                                    sub_tree.entry_models(),
                                    (fl - 1) as nat,
                                ) is Ok);
                                assert(blobs_from(
                                    store@,
                                    sub_tree.entry_models(),
                                    (fl - 1) as nat,
                                ) is Ok);
                                assert(seq![entry@].skip(1) =~= Seq::<EntryModel>::empty());
                                assert(files_from(store@, seq![entry@].skip(1), fl) is Ok);
                                assert(blobs_from(store@, seq![entry@].skip(1), fl) is Ok);
                                assert(store@.contains_key(entry@.hash));
                                assert(parse_entries(store@[entry@.hash]) == Some(
                                    sub_tree.entry_models(),
                                ));
                                assert(files_from(store@, seq![entry@], fl) is Ok);
                                assert(blobs_from(store@, seq![entry@], fl) is Ok);
                                lemma_files_from_append(store@, evs, seq![entry@], fl);
                                lemma_blobs_from_append(store@, evs, seq![entry@], fl);
                                assert(evs + seq![entry@] =~= evs.push(entry@));
                                assert(entry_views(entries@.push(entry)) =~= evs.push(entry@));
                            }
                            assert(tree_children_stored(evs.push(entry@), store@)) by {
                                crate::codec::lemma_codec_round_trip(sub_tree.entry_models());
                                assert forall|k: int|
                                    0 <= k < evs.push(entry@).len() && (#[trigger] evs.push(
                                        entry@,
                                    )[k]).kind is Tree implies store@.contains_key(evs.push(
                                    entry@,
                                )[k].hash) && parse_entries(
                                    store@[evs.push(entry@)[k].hash],
                                ) is Some by {
                                    if k < evs.len() {
                                        assert(evs[k].kind is Tree);
                                    } else {
                                        assert(evs.push(entry@)[k] == entry@);
                                        assert(entry@.hash == sub_tree.hash@);
                                        assert(store@[sub_tree.hash@] == encode_entries(
                                            sub_tree.entry_models(),
                                        ));
                                    }
                                }
                            }
                            assert(blob_hashes_faithful(evs.push(entry@), fm, prefix@)) by {
                                assert forall|k: int|
                                    0 <= k < evs.push(entry@).len() && (#[trigger] evs.push(
                                        entry@,
                                    )[k]).kind is Blob implies exists|j: int|
                                    0 <= j < fm.len() && under_prefix(
                                        (#[trigger] fm[j]).path,
                                        prefix@,
                                    ) && evs.push(entry@)[k].name == fm[j].path.subrange(
                                        off_of(prefix@),
                                        fm[j].path.len() as int,
                                    ) && evs.push(entry@)[k].hash == content_hash(fm[j].data) by {
                                    assert(k < evs.len());
                                    assert(evs[k].kind is Blob);
                                }
                            }
                            assert(entry@ == EntryModel {
                                kind: EntryKind::Tree,
                                mode: dir_mode_spec(),
                                hash: content_hash(encode_entries(sub_tree.entry_models())),
                                name: rem.take(slash_abs - off),
                            });
                            assert(entry_views(entries@) == evs);
                            assert(entry_views(entries@.push(entry)) =~= evs.push(entry@));
                            assert(build_level(store_before, fm, prefix@, i as int, set0, evs)
                                == build_level(
                                store@,
                                fm,
                                prefix@,
                                i + 1,
                                set0.insert(rem.take(slash_abs - off)),
                                evs.push(entry@),
                            ));
                        }
                        entries.push(entry);
                        proof {
                            seen_set = set0.insert(name@);
                            assert forall|n: Seq<u8>| #[trigger] seen_set.contains(n) implies (
                            exists|j: int| 0 <= j < seen@.len() && seen@[j]@ == n) by {
                                if n == name@ {
                                    assert(seen@[seen@.len() - 1]@ == name@);
                                } else {
                                    assert(set0.contains(n));
                                    let j = choose|j: int|
                                        0 <= j < seen0.len() && seen0[j]@ == n;
                                    assert(seen@[j]@ == n);
                                }
                            }
                            assert forall|n: Seq<u8>| (exists|j: int|
                                0 <= j < seen@.len() && seen@[j]@ == n) implies #[trigger] seen_set
                                .contains(n) by {
                                let j = choose|j: int| 0 <= j < seen@.len() && seen@[j]@ == n;
                                if j < seen0.len() {
                                    assert(seen0[j]@ == n);
                                    assert(set0.contains(n));
                                } else {
                                    assert(n == name@);
                                }
                            }
                        }
                    } else {
                        proof {
                            assert(seen_set.contains(name@));
                            assert(name@ == rem.take(slash_abs - off));
                            assert(level_entries(fm, prefix@, i as int, seen_set)
                                == level_entries(fm, prefix@, i + 1, seen_set));
                            assert(build_level(
                                store@,
                                fm,
                                prefix@,
                                i as int,
                                seen_set,
                                entry_views(entries@),
                            ) == build_level(
                                store@,
                                fm,
                                prefix@,
                                i + 1,
                                seen_set,
                                entry_views(entries@),
                            ));
                        }
                    }
                },
            }
        } else {
            proof {
                assert(level_entries(fm, prefix@, i as int, seen_set) == level_entries(
                    fm,
                    prefix@,
                    i + 1,
                    seen_set,
                ));
            }
        }
        i = i + 1;
    }
    proof {
        assert(level_entries(fm, prefix@, files@.len() as int, seen_set) == Seq::<
            (EntryKind, Seq<u8>, Seq<u8>),
        >::empty());
        assert(shapes_of(entries@.map_values(|e: TreeEntry| e@)) + Seq::<
            (EntryKind, Seq<u8>, Seq<u8>),
        >::empty() =~= shapes_of(entries@.map_values(|e: TreeEntry| e@)));
    }
    let ghost evs_final = entry_views(entries@);
    let mut tree = Tree { hash: ObjectHash { value: 0 }, entries };
    proof {
        assert(tree.entry_models() == evs_final);
    }
    let ghost store_before_save = store@;
    match tree.save(store) {
        Ok(_h) => {
            proof {
                lemma_saved_map_extends(store_before_save, encode_entries(tree.entry_models()));
                lemma_submap_trans(old(store)@, store_before_save, store@);
                lemma_children_stored_frame(tree.entry_models(), store_before_save, store@);
                assert forall|fl: nat|
                    fl >= max_path_len(fm) - prefix@.len() implies #[trigger] files_from(
                    store@,
                    tree.entry_models(),
                    fl,
                ) is Ok && #[trigger] blobs_from(store@, tree.entry_models(), fl) is Ok by {
                    assert(files_from(store_before_save, evs_final, fl) is Ok && blobs_from(
                        store_before_save,
                        evs_final,
                        fl,
                    ) is Ok);
                    lemma_files_from_frame(store_before_save, store@, tree.entry_models(), fl);
                    lemma_blobs_from_frame(store_before_save, store@, tree.entry_models(), fl);
                }
                assert(save_ok(store_before_save, encode_entries(evs_final)));
                assert(build_level(
                    store_before_save,
                    fm,
                    prefix@,
                    files@.len() as int,
                    seen_set,
                    evs_final,
                ) == (
                    Ok::<Seq<EntryModel>, ObjectError>(evs_final),
                    saved_map(store_before_save, encode_entries(evs_final)),
                ));
                assert(build_level(old(store)@, fm, prefix@, 0, Set::empty(), Seq::empty()).0
                    is Ok);
                lemma_build_stores_blobs(old(store)@, fm, prefix@, 0, Set::empty(), Seq::empty());
                assert forall|j: int|
                    0 <= j < fm.len() && under_prefix(
                        (#[trigger] fm[j]).path,
                        prefix@,
                    ) implies blob_stored(store@, fm[j].data) by {
                    assert(routed_here(fm, prefix@, Set::empty(), j)) by {
                        let remj = fm[j].path.subrange(off_of(prefix@), fm[j].path.len() as int);
                        match find_byte(remj, SLASH) {
                            None => {},
                            Some(q) => {
                                assert(!Set::<Seq<u8>>::empty().contains(remj.take(q)));
                            },
                        }
                    }
                    assert(blob_stored(
                        build_level(old(store)@, fm, prefix@, 0, Set::empty(), Seq::empty()).1,
                        fm[j].data,
                    ));
                }
            }
            Ok(tree)
        },
        Err(e) => {
            proof {
                lemma_saved_map_extends(store_before_save, encode_entries(tree.entry_models()));
                lemma_submap_trans(old(store)@, store_before_save, store@);
                assert(!save_ok(store_before_save, encode_entries(evs_final)));
                assert(store@ == store_before_save);
                assert(build_level(
                    store_before_save,
                    fm,
                    prefix@,
                    files@.len() as int,
                    seen_set,
                    evs_final,
                ) == (Err::<Seq<EntryModel>, ObjectError>(ObjectError::HashMismatch), store@));
            }
            Err(e)
        },
    }
}

impl Tree {
    /// Builds the top-level tree from the ordered list of tracked files and
    /// persists every blob, every subdirectory tree, and the tree itself.
    pub fn new(store: &mut Store, files: &Vec<TrackedFile>) -> (r: Result<Tree, ObjectError>)
        requires
            old(store).wf(),
            valid_input(file_models(files@)),
        ensures
            final(store).wf(),
            old(store)@.submap_of(final(store)@),
            r matches Ok(t) ==> t.wf() && t.sealed() && final(store)@.contains_key(t.hash@)
                && final(store)@[t.hash@] == encode_entries(t.entry_models()),
            r matches Ok(t) ==> shapes_of(t.entry_models()) == level_entries(
                file_models(files@),
                Seq::empty(),
                0,
                Set::empty(),
            ),
            r matches Ok(t) ==> blob_hashes_faithful(
                t.entry_models(),
                file_models(files@),
                Seq::empty(),
            ),
            r matches Ok(t) ==> tree_children_stored(t.entry_models(), final(store)@),
            r matches Ok(t) ==> forall|fl: nat|
                fl >= max_path_len(file_models(files@)) ==> #[trigger] files_from(
                    final(store)@,
                    t.entry_models(),
                    fl,
                ) is Ok && #[trigger] blobs_from(final(store)@, t.entry_models(), fl) is Ok,
            r matches Ok(t) ==> forall|j: int|
                0 <= j < file_models(files@).len() ==> blob_stored(
                    final(store)@,
                    (#[trigger] file_models(files@)[j]).data,
                ),
            r matches Err(e) ==> e == ObjectError::HashMismatch,
            ({
                let model = build_spec(old(store)@, file_models(files@), Seq::empty());
                &&& (r is Ok <==> model.0 is Ok)
                &&& final(store)@ == model.1
                &&& (r matches Ok(t) ==> model.0 == Ok::<Seq<EntryModel>, ObjectError>(
                    t.entry_models(),
                ))
                &&& (r matches Err(e) ==> model.0 == Err::<Seq<EntryModel>, ObjectError>(e))
            }),
    {
        let prefix: Vec<u8> = Vec::new();
        proof {
            lemma_max_path_len_nonneg(file_models(files@));
            assert(prefix@ =~= Seq::<u8>::empty());
        }
        let r = build_tree(store, files, &prefix);
        proof {
            let fm = file_models(files@);
            if r is Ok {
                assert forall|j: int| 0 <= j < fm.len() implies blob_stored(
                    store@,
                    (#[trigger] fm[j]).data,
                ) by {
                    assert(valid_path(fm[j].path) && fm[j].path.len() > 0);
                    assert(under_prefix(fm[j].path, prefix@));
                }
            }
        }
        r
    }
}

/// Reload fidelity: after a tree's well-formed entry list is serialized and
/// saved, loading the returned hash parses back an entry list identical in
/// content and order. `Tree::save` writes `saved_map` contents and returns
/// the hash of the serialized form; `Tree::load` parses what the store holds
/// under that hash.
pub proof fn lemma_tree_reload_fidelity(m: Map<u64, Seq<u8>>, es: Seq<EntryModel>)
    requires
        wf_entries(es),
        save_ok(m, encode_entries(es)),
    ensures
        saved_map(m, encode_entries(es)).contains_key(content_hash(encode_entries(es))),
        parse_entries(
            saved_map(m, encode_entries(es))[content_hash(encode_entries(es))],
        ) == Some(es),
{
    crate::codec::lemma_codec_round_trip(es);
}

/// Merkle propagation: replacing the object hash of one entry, everything
/// else kept identical, changes the serialized entry list; with a hasher
/// that does not collide on the two forms, the tree's own hash changes too.
/// Applied once at the blob's directory and once per ancestor, this carries a
/// leaf content change up to the root, while entries other than the changed
/// one stand untouched by construction.
pub proof fn lemma_merkle_propagation(es1: Seq<EntryModel>, es2: Seq<EntryModel>, i: int)
    requires
        wf_entries(es1),
        wf_entries(es2),
        es1.len() == es2.len(),
        0 <= i < es1.len(),
        forall|j: int| 0 <= j < es1.len() && j != i ==> es1[j] == es2[j],
        es1[i].hash != es2[i].hash,
        content_hash(encode_entries(es1)) == content_hash(encode_entries(es2))
            ==> encode_entries(es1) == encode_entries(es2),
    ensures
        encode_entries(es1) != encode_entries(es2),
        content_hash(encode_entries(es1)) != content_hash(encode_entries(es2)),
{
    crate::codec::lemma_codec_round_trip(es1);
    crate::codec::lemma_codec_round_trip(es2);
    assert(es1[i] != es2[i]);
    if encode_entries(es1) == encode_entries(es2) {
        assert(Some(es1) == Some(es2));
        assert(es1[i] == es2[i]);
    }
}

proof fn lemma_max_path_len_nonneg(files: Seq<FileModel>)
    ensures
        max_path_len(files) >= 0,
    decreases files.len(),
{
    if files.len() > 0 {
        lemma_max_path_len_nonneg(files.drop_last());
    }
}

/// Prefixes every path in `paths` with `name` and a separator.
fn prefix_all(name: &Vec<u8>, paths: &Vec<Vec<u8>>) -> (r: Vec<Vec<u8>>)
    ensures
        r@.map_values(|p: Vec<u8>| p@) == paths@.map_values(|p: Vec<u8>| p@).map_values(
            |p: Seq<u8>| name@ + seq![SLASH] + p,
        ),
{
    let mut out: Vec<Vec<u8>> = Vec::new();
    let mut i: usize = 0;
    while i < paths.len()
        invariant
            0 <= i <= paths@.len(),
            out@.len() == i,
            forall|k: int| 0 <= k < i ==> #[trigger] out@[k]@ == name@ + seq![SLASH] + paths@[k]@,
        decreases paths@.len() - i,
    {
        let mut joined = copy_bytes(name);
        joined.push(SLASH);
        crate::codec::append_bytes(&mut joined, &paths[i]);
        proof {
            assert(joined@ =~= name@ + seq![SLASH] + paths@[i as int]@);
        }
        out.push(joined);
        i = i + 1;
    }
    proof {
        let full = paths@.map_values(|p: Vec<u8>| p@).map_values(
            |p: Seq<u8>| name@ + seq![SLASH] + p,
        );
        assert(out@.map_values(|p: Vec<u8>| p@) =~= full);
    }
    out
}

/// The walk behind `get_recursive_file_entries`, mirroring `files_from`.
fn files_rec(store: &Store, entries: &Vec<TreeEntry>, fuel: usize) -> (r: Result<
    Vec<Vec<u8>>,
    ObjectError,
>)
    requires
        store.wf(),
    ensures
        match files_from(store@, entries@.map_values(|e: TreeEntry| e@), fuel as nat) {
            Ok(ps) => r matches Ok(v) && v@.map_values(|p: Vec<u8>| p@) == ps,
            Err(e) => r == Err::<Vec<Vec<u8>>, ObjectError>(e),
        },
    decreases fuel, entries@.len(),
{
    let ghost ms = entries@.map_values(|e: TreeEntry| e@);
    if entries.len() == 0 {
        proof {
            assert(Seq::<Vec<u8>>::empty().map_values(|p: Vec<u8>| p@) =~= Seq::<Seq<u8>>::empty());
        }
        return Ok(Vec::new());
    }
    let e = &entries[0];
    let rest_entries = subentries(entries, 1);
    proof {
        assert(rest_entries@.map_values(|x: TreeEntry| x@) =~= ms.skip(1));
    }
    match e.kind {
        EntryKind::Blob => {
            match files_rec(store, &rest_entries, fuel) {
                Err(x) => Err(x),
                Ok(rest) => {
                    let mut out: Vec<Vec<u8>> = Vec::new();
                    out.push(copy_bytes(&e.name));
                    let mut rest = rest;
                    let ghost rest_view = rest@.map_values(|p: Vec<u8>| p@);
                    append_paths(&mut out, rest);
                    proof {
                        assert(out@.map_values(|p: Vec<u8>| p@) =~= seq![ms[0].name] + rest_view);
                    }
                    Ok(out)
                },
            }
        },
        EntryKind::Tree => {
            if fuel == 0 {
                return Err(ObjectError::FormatError);
            }
            let sub_tree = match Tree::load(store, &e.object_hash) {
                Ok(t) => t,
                Err(x) => {
                    return Err(x);
                },
            };
            let sub = match files_rec(store, &sub_tree.entries, fuel - 1) {
                Ok(s) => s,
                Err(x) => {
                    return Err(x);
                },
            };
            let prefixed = prefix_all(&e.name, &sub);
            match files_rec(store, &rest_entries, fuel) {
                Err(x) => Err(x),
                Ok(rest) => {
                    let mut out = prefixed;
                    let ghost out_view = out@.map_values(|p: Vec<u8>| p@);
                    let ghost rest_view = rest@.map_values(|p: Vec<u8>| p@);
                    append_paths(&mut out, rest);
                    proof {
                        assert(out@.map_values(|p: Vec<u8>| p@) =~= out_view + rest_view);
                    }
                    Ok(out)
                },
            }
        },
    }
}

/// The walk behind `get_recursive_blobs`, mirroring `blobs_from`.
fn blobs_rec(store: &Store, entries: &Vec<TreeEntry>, fuel: usize) -> (r: Result<
    Vec<(Vec<u8>, ObjectHash)>,
    ObjectError,
>)
    requires
        store.wf(),
    ensures
        match blobs_from(store@, entries@.map_values(|e: TreeEntry| e@), fuel as nat) {
            Ok(ps) => r matches Ok(v) && v@.map_values(|p: (Vec<u8>, ObjectHash)| (p.0@, p.1@))
                == ps,
            Err(e) => r == Err::<Vec<(Vec<u8>, ObjectHash)>, ObjectError>(e),
        },
    decreases fuel, entries@.len(),
{
    let ghost ms = entries@.map_values(|e: TreeEntry| e@);
    if entries.len() == 0 {
        proof {
            assert(Seq::<(Vec<u8>, ObjectHash)>::empty().map_values(
                |p: (Vec<u8>, ObjectHash)| (p.0@, p.1@),
            ) =~= Seq::<(Seq<u8>, u64)>::empty());
        }
        return Ok(Vec::new());
    }
    let e = &entries[0];
    let rest_entries = subentries(entries, 1);
    proof {
        assert(rest_entries@.map_values(|x: TreeEntry| x@) =~= ms.skip(1));
    }
    match e.kind {
        EntryKind::Blob => {
            match blobs_rec(store, &rest_entries, fuel) {
                Err(x) => Err(x),
                Ok(rest) => {
                    let mut out: Vec<(Vec<u8>, ObjectHash)> = Vec::new();
                    out.push((copy_bytes(&e.name), ObjectHash { value: e.object_hash.value }));
                    let ghost rest_view = rest@.map_values(|p: (Vec<u8>, ObjectHash)| (p.0@, p.1@));
                    append_pairs(&mut out, rest);
                    proof {
                        assert(out@.map_values(|p: (Vec<u8>, ObjectHash)| (p.0@, p.1@)) =~= seq![
                            (ms[0].name, ms[0].hash),
                        ] + rest_view);
                    }
                    Ok(out)
                },
            }
        },
        EntryKind::Tree => {
            if fuel == 0 {
                return Err(ObjectError::FormatError);
            }
            let sub_tree = match Tree::load(store, &e.object_hash) {
                Ok(t) => t,
                Err(x) => {
                    return Err(x);
                },
            };
            let sub = match blobs_rec(store, &sub_tree.entries, fuel - 1) {
                Ok(s) => s,
                Err(x) => {
                    return Err(x);
                },
            };
            let prefixed = prefix_pairs(&e.name, sub);
            match blobs_rec(store, &rest_entries, fuel) {
                Err(x) => Err(x),
                Ok(rest) => {
                    let mut out = prefixed;
                    let ghost out_view = out@.map_values(|p: (Vec<u8>, ObjectHash)| (p.0@, p.1@));
                    let ghost rest_view = rest@.map_values(|p: (Vec<u8>, ObjectHash)| (p.0@, p.1@));
                    append_pairs(&mut out, rest);
                    proof {
                        assert(out@.map_values(|p: (Vec<u8>, ObjectHash)| (p.0@, p.1@)) =~= out_view
                            + rest_view);
                    }
                    Ok(out)
                },
            }
        },
    }
}

/// The entries from `from` on, as a fresh vector.
fn subentries(entries: &Vec<TreeEntry>, from: usize) -> (r: Vec<TreeEntry>)
    requires
        from <= entries@.len(),
    ensures
        r@.map_values(|e: TreeEntry| e@) == entries@.map_values(|e: TreeEntry| e@).skip(from as int),
{
    let mut out: Vec<TreeEntry> = Vec::new();
    let mut i: usize = from;
    while i < entries.len()
        invariant
            from <= i <= entries@.len(),
            out@.len() == i - from,
            forall|k: int| 0 <= k < i - from ==> #[trigger] out@[k]@ == entries@[from + k]@,
        decreases entries@.len() - i,
    {
        let e = &entries[i];
        let copy = TreeEntry {
            kind: e.kind,
            mode: copy_bytes(&e.mode),
            object_hash: ObjectHash { value: e.object_hash.value },
            name: copy_bytes(&e.name),
        };
        proof {
            assert(copy@ == entries@[i as int]@);
        }
        out.push(copy);
        i = i + 1;
    }
    proof {
        let all = entries@.map_values(|x: TreeEntry| x@);
        assert(out@.map_values(|x: TreeEntry| x@) =~= all.skip(from as int));
    }
    out
}

/// Moves every path of `more` to the end of `out`.
fn append_paths(out: &mut Vec<Vec<u8>>, more: Vec<Vec<u8>>)
    ensures
        final(out)@.map_values(|p: Vec<u8>| p@) == old(out)@.map_values(|p: Vec<u8>| p@)
            + more@.map_values(|p: Vec<u8>| p@),
{
    let mut i: usize = 0;
    while i < more.len()
        invariant
            0 <= i <= more@.len(),
            out@.len() == old(out)@.len() + i,
            forall|k: int| 0 <= k < old(out)@.len() ==> #[trigger] out@[k] == old(out)@[k],
            forall|k: int|
                old(out)@.len() <= k < old(out)@.len() + i ==> #[trigger] out@[k]@ == more@[k - old(
                    out,
                )@.len()]@,
        decreases more@.len() - i,
    {
        out.push(copy_bytes(&more[i]));
        i = i + 1;
    }
    proof {
        let a = old(out)@.map_values(|p: Vec<u8>| p@);
        let b = more@.map_values(|p: Vec<u8>| p@);
        assert(out@.map_values(|p: Vec<u8>| p@) =~= a + b);
    }
}

/// Moves every pair of `more` to the end of `out`.
fn append_pairs(out: &mut Vec<(Vec<u8>, ObjectHash)>, more: Vec<(Vec<u8>, ObjectHash)>)
    ensures
        final(out)@.map_values(|p: (Vec<u8>, ObjectHash)| (p.0@, p.1@)) == old(out)@.map_values(
            |p: (Vec<u8>, ObjectHash)| (p.0@, p.1@),
        ) + more@.map_values(|p: (Vec<u8>, ObjectHash)| (p.0@, p.1@)),
{
    let mut i: usize = 0;
    while i < more.len()
        invariant
            0 <= i <= more@.len(),
            out@.len() == old(out)@.len() + i,
            forall|k: int| 0 <= k < old(out)@.len() ==> #[trigger] out@[k] == old(out)@[k],
            forall|k: int|
                old(out)@.len() <= k < old(out)@.len() + i ==> (#[trigger] out@[k]).0@ == more@[k
                    - old(out)@.len()].0@ && out@[k].1@ == more@[k - old(out)@.len()].1@,
        decreases more@.len() - i,
    {
        let pair = &more[i];
        out.push((copy_bytes(&pair.0), ObjectHash { value: pair.1.value }));
        i = i + 1;
    }
    proof {
        let a = old(out)@.map_values(|p: (Vec<u8>, ObjectHash)| (p.0@, p.1@));
        let b = more@.map_values(|p: (Vec<u8>, ObjectHash)| (p.0@, p.1@));
        assert(out@.map_values(|p: (Vec<u8>, ObjectHash)| (p.0@, p.1@)) =~= a + b);
    }
}

/// Prefixes every pair's path with `name` and a separator.
fn prefix_pairs(name: &Vec<u8>, pairs: Vec<(Vec<u8>, ObjectHash)>) -> (r: Vec<
    (Vec<u8>, ObjectHash),
>)
    ensures
        r@.map_values(|p: (Vec<u8>, ObjectHash)| (p.0@, p.1@)) == pairs@.map_values(
            |p: (Vec<u8>, ObjectHash)| (p.0@, p.1@),
        ).map_values(|p: (Seq<u8>, u64)| (name@ + seq![SLASH] + p.0, p.1)),
{
    let mut out: Vec<(Vec<u8>, ObjectHash)> = Vec::new();
    let mut i: usize = 0;
    while i < pairs.len()
        invariant
            0 <= i <= pairs@.len(),
            out@.len() == i,
            forall|k: int|
                0 <= k < i ==> (#[trigger] out@[k]).0@ == name@ + seq![SLASH] + pairs@[k].0@
                    && out@[k].1@ == pairs@[k].1@,
        decreases pairs@.len() - i,
    {
        let mut joined = copy_bytes(name);
        joined.push(SLASH);
        crate::codec::append_bytes(&mut joined, &pairs[i].0);
        proof {
            assert(joined@ =~= name@ + seq![SLASH] + pairs@[i as int].0@);
        }
        out.push((joined, ObjectHash { value: pairs[i].1.value }));
        i = i + 1;
    }
    proof {
        let full = pairs@.map_values(|p: (Vec<u8>, ObjectHash)| (p.0@, p.1@)).map_values(
            |p: (Seq<u8>, u64)| (name@ + seq![SLASH] + p.0, p.1),
        );
        assert(out@.map_values(|p: (Vec<u8>, ObjectHash)| (p.0@, p.1@)) =~= full);
    }
    out
}

} // verus!
