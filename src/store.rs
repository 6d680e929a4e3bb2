use vstd::prelude::*;
use crate::codec::{
    decode_model, decoded_view, encode_object, fits, frame, object_decoder, object_id,
    zlib_compressed, ObjectError, StoredObject,
};
use crate::hash::{hex_text, obj_path_from_sha, object_path, ObjectHash};
use crate::kind::ObjType;
use crate::tree::{parse_entries, parse_tree, parsed_view, TreeEntry};

verus! {

/// Where the object `(k, c)` is stored, relative to the store's root.
pub open spec fn storage_path(k: ObjType, c: Seq<u8>) -> Seq<char> {
    object_path(hex_text(object_id(k, c)))
}

/// The fingerprint of an object and the path it is stored at.
pub struct PutPlan {
    pub hash: ObjectHash,
    pub path: String,
}

/// What storing an object takes, once it is known whether its path exists.
pub enum PutAction {
    /// An object is already stored there; nothing is touched.
    AlreadyStored,
    /// These bytes go to a fresh file at the path, made read-only after.
    Write(Vec<u8>),
}

/// The stored files, by path, after storing `(k, c)` in `store`.
pub open spec fn after_put(store: Map<Seq<char>, Seq<u8>>, k: ObjType, c: Seq<u8>) -> Map<
    Seq<char>,
    Seq<u8>,
> {
    let p = storage_path(k, c);
    if store.contains_key(p) {
        store
    } else {
        store.insert(p, zlib_compressed(frame(k, c)))
    }
}

/// Whether storing `(k, c)` in `store` writes a file.
pub open spec fn put_writes(store: Map<Seq<char>, Seq<u8>>, k: ObjType, c: Seq<u8>) -> bool {
    !store.contains_key(storage_path(k, c))
}

/// Fingerprints an object and finds its storage path.
pub fn plan_put(kind: ObjType, content: &[u8]) -> (r: PutPlan)
    requires
        fits(content@),
    ensures
        r.hash.bytes@ == object_id(kind, content@),
        r.path@ == storage_path(kind, content@),
{
    let hash = crate::codec::hash_content(kind, content);
    let hex = hash.to_hex();
    let path = obj_path_from_sha(hex.as_str());
    PutPlan { hash, path }
}

/// Decides the write that storing an object takes: none where its path
/// already exists, else the object's compressed bytes.
pub fn put_action(kind: ObjType, content: &[u8], exists: bool) -> (r: PutAction)
    requires
        fits(content@),
    ensures
        exists ==> r matches PutAction::AlreadyStored,
        !exists ==> (r matches PutAction::Write(z) && z@ == zlib_compressed(frame(kind, content@))),
{
    if exists {
        return PutAction::AlreadyStored;
    }
    PutAction::Write(encode_object(kind, content))
}

/// Storing an object a second time writes nothing and leaves the stored
/// files as the first time left them.
pub proof fn lemma_put_idempotent(store: Map<Seq<char>, Seq<u8>>, k: ObjType, c: Seq<u8>)
    ensures
        !put_writes(after_put(store, k, c), k, c),
        after_put(after_put(store, k, c), k, c) == after_put(store, k, c),
        after_put(store, k, c)[storage_path(k, c)] == if put_writes(store, k, c) {
            zlib_compressed(frame(k, c))
        } else {
            store[storage_path(k, c)]
        },
{
}

/// Resolves what was read at an object's path: `NotFound` where no file
/// was there, else the decoded object.
pub fn get_object(stored: Option<Vec<u8>>) -> (r: Result<StoredObject, ObjectError>)
    ensures
        stored is None ==> r == Err::<StoredObject, ObjectError>(ObjectError::NotFound),
        stored matches Some(z) ==> decoded_view(r) == decode_model(z@),
        r matches Ok(o) ==> o.size == o.content@.len(),
{
    match stored {
        None => Err(ObjectError::NotFound),
        Some(z) => object_decoder(z.as_slice()),
    }
}

/// The entries of a decoded tree object; `InvalidInput` for an object of
/// another kind, `Corrupt` for a malformed body.
pub fn tree_entries(obj: &StoredObject) -> (r: Result<Vec<TreeEntry>, ObjectError>)
    ensures
        obj.kind != ObjType::Tree ==> r == Err::<Vec<TreeEntry>, ObjectError>(
            ObjectError::InvalidInput,
        ),
        obj.kind == ObjType::Tree ==> parsed_view(r) == parse_entries(obj.content@),
        obj.kind == ObjType::Tree ==> (r matches Err(e) ==> e == ObjectError::Corrupt),
{
    match obj.kind {
        ObjType::Tree => parse_tree(obj.content.as_slice()),
        _ => Err(ObjectError::InvalidInput),
    }
}

} // verus!
