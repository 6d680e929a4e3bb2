use vstd::prelude::*;
use crate::text::bytes_eq;

verus! {

/// The type of a stored object.
#[derive(Debug, Clone, Copy, PartialEq, Eq, Structural)]
pub enum ObjType {
    Commit,
    Tree,
    Blob,
    Tag,
}

/// The lowercase token that names a kind in an object header.
pub open spec fn kind_token(k: ObjType) -> Seq<u8> {
    match k {
        ObjType::Commit => seq![99u8, 111u8, 109u8, 109u8, 105u8, 116u8],
        ObjType::Tree => seq![116u8, 114u8, 101u8, 101u8],
        ObjType::Blob => seq![98u8, 108u8, 111u8, 98u8],
        ObjType::Tag => seq![116u8, 97u8, 103u8],
    }
}

/// The kind whose token is `t`, if any.
pub open spec fn kind_of_token(t: Seq<u8>) -> Option<ObjType> {
    if t == kind_token(ObjType::Commit) {
        Some(ObjType::Commit)
    } else if t == kind_token(ObjType::Tree) {
        Some(ObjType::Tree)
    } else if t == kind_token(ObjType::Blob) {
        Some(ObjType::Blob)
    } else if t == kind_token(ObjType::Tag) {
        Some(ObjType::Tag)
    } else {
        None
    }
}

/// Tokens are nonempty and hold neither a space nor a NUL byte.
pub open spec fn plain_token(t: Seq<u8>) -> bool {
    &&& t.len() > 0
    &&& forall|i: int| 0 <= i < t.len() ==> t[i] != 32u8 && t[i] != 0u8
}

pub proof fn lemma_kind_token(k: ObjType)
    ensures
        kind_of_token(kind_token(k)) == Some(k),
        plain_token(kind_token(k)),
{
    assert(kind_token(ObjType::Commit) != kind_token(ObjType::Tree));
    assert(kind_token(ObjType::Commit) != kind_token(ObjType::Blob));
    assert(kind_token(ObjType::Commit) != kind_token(ObjType::Tag));
    assert(kind_token(ObjType::Tree)[0] != kind_token(ObjType::Blob)[0]);
    assert(kind_token(ObjType::Tree)[1] != kind_token(ObjType::Tag)[1]);
    assert(kind_token(ObjType::Blob)[0] != kind_token(ObjType::Tag)[0]);
}

impl ObjType {
    /// The kind's header token as text.
    pub fn kind_name(&self) -> (r: &'static str)
        ensures
            r@.len() == kind_token(*self).len(),
            forall|i: int| 0 <= i < r@.len() ==> r@[i] as u8 == kind_token(*self)[i] && r@[i] < 128,
    {
        match self {
            ObjType::Commit => {
                proof { reveal_strlit("commit"); }
                "commit"
            },
            ObjType::Tree => {
                proof { reveal_strlit("tree"); }
                "tree"
            },
            ObjType::Blob => {
                proof { reveal_strlit("blob"); }
                "blob"
            },
            ObjType::Tag => {
                proof { reveal_strlit("tag"); }
                "tag"
            },
        }
    }

    /// The kind's header token as bytes.
    pub fn token(&self) -> (r: Vec<u8>)
        ensures
            r@ == kind_token(*self),
    {
        match self {
            ObjType::Commit => vec![99u8, 111u8, 109u8, 109u8, 105u8, 116u8],
            ObjType::Tree => vec![116u8, 114u8, 101u8, 101u8],
            ObjType::Blob => vec![98u8, 108u8, 111u8, 98u8],
            ObjType::Tag => vec![116u8, 97u8, 103u8],
        }
    }

    /// Recognises a header token; any other byte string is refused.
    pub fn from_token(t: &[u8]) -> (r: Option<ObjType>)
        ensures
            r == kind_of_token(t@),
    {
        let commit = ObjType::Commit.token();
        if bytes_eq(t, commit.as_slice()) {
            return Some(ObjType::Commit);
        }
        let tree = ObjType::Tree.token();
        if bytes_eq(t, tree.as_slice()) {
            return Some(ObjType::Tree);
        }
        let blob = ObjType::Blob.token();
        if bytes_eq(t, blob.as_slice()) {
            return Some(ObjType::Blob);
        }
        let tag = ObjType::Tag.token();
        if bytes_eq(t, tag.as_slice()) {
            return Some(ObjType::Tag);
        }
        None
    }
}

} // verus!
