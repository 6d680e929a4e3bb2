use vstd::prelude::*;
use crate::codec::{fits, hash_content, object_id, ObjectError};
use crate::hash::{hex_bytes, ObjectHash};
use crate::kind::{kind_token, ObjType};
use crate::text::{append_bytes, bytes_eq, copy_range, find_byte, lemma_scan, lemma_scan_at, scan};

verus! {

/// The mode recorded for a tree entry.
#[derive(Debug, Clone, Copy, PartialEq, Eq, Structural)]
pub enum TreeObjMode {
    Directory,
    RegularFile,
    ExecutableFile,
    Link,
}

/// The octal mode token written in a tree body.
pub open spec fn mode_token(m: TreeObjMode) -> Seq<u8> {
    match m {
        TreeObjMode::Directory => seq![52u8, 48u8, 48u8, 48u8, 48u8],
        TreeObjMode::RegularFile => seq![49u8, 48u8, 48u8, 54u8, 52u8, 52u8],
        TreeObjMode::ExecutableFile => seq![49u8, 48u8, 48u8, 55u8, 53u8, 53u8],
        TreeObjMode::Link => seq![49u8, 50u8, 48u8, 48u8, 48u8, 48u8],
    }
}

/// The mode whose token is `t`, if any.
pub open spec fn mode_of_token(t: Seq<u8>) -> Option<TreeObjMode> {
    if t == mode_token(TreeObjMode::Directory) {
        Some(TreeObjMode::Directory)
    } else if t == mode_token(TreeObjMode::RegularFile) {
        Some(TreeObjMode::RegularFile)
    } else if t == mode_token(TreeObjMode::ExecutableFile) {
        Some(TreeObjMode::ExecutableFile)
    } else if t == mode_token(TreeObjMode::Link) {
        Some(TreeObjMode::Link)
    } else {
        None
    }
}

/// The six-digit mode shown when listing a tree.
pub open spec fn mode_display(m: TreeObjMode) -> Seq<u8> {
    match m {
        TreeObjMode::Directory => seq![48u8, 52u8, 48u8, 48u8, 48u8, 48u8],
        _ => mode_token(m),
    }
}

/// The kind of object that an entry with mode `m` refers to.
pub open spec fn mode_kind(m: TreeObjMode) -> ObjType {
    match m {
        TreeObjMode::Directory => ObjType::Tree,
        _ => ObjType::Blob,
    }
}

pub proof fn lemma_mode_token(m: TreeObjMode)
    ensures
        mode_of_token(mode_token(m)) == Some(m),
        mode_token(m).len() > 0,
        forall|i: int| 0 <= i < mode_token(m).len() ==> mode_token(m)[i] != 32u8,
{
    assert(mode_token(TreeObjMode::RegularFile)[3] != mode_token(TreeObjMode::ExecutableFile)[3]);
    assert(mode_token(TreeObjMode::RegularFile)[1] != mode_token(TreeObjMode::Link)[1]);
    assert(mode_token(TreeObjMode::ExecutableFile)[1] != mode_token(TreeObjMode::Link)[1]);
}

impl TreeObjMode {
    /// Recognises a mode token; any other byte string is refused.
    pub fn from(bytes: &[u8]) -> (r: Option<TreeObjMode>)
        ensures
            r == mode_of_token(bytes@),
    {
        let d = TreeObjMode::Directory.as_bytes();
        if bytes_eq(bytes, d.as_slice()) {
            return Some(TreeObjMode::Directory);
        }
        let f = TreeObjMode::RegularFile.as_bytes();
        if bytes_eq(bytes, f.as_slice()) {
            return Some(TreeObjMode::RegularFile);
        }
        let x = TreeObjMode::ExecutableFile.as_bytes();
        if bytes_eq(bytes, x.as_slice()) {
            return Some(TreeObjMode::ExecutableFile);
        }
        let l = TreeObjMode::Link.as_bytes();
        if bytes_eq(bytes, l.as_slice()) {
            return Some(TreeObjMode::Link);
        }
        None
    }

    /// The mode token written in a tree body.
    pub fn as_bytes(&self) -> (r: Vec<u8>)
        ensures
            r@ == mode_token(*self),
    {
        match self {
            TreeObjMode::Directory => vec![52u8, 48u8, 48u8, 48u8, 48u8],
            TreeObjMode::RegularFile => vec![49u8, 48u8, 48u8, 54u8, 52u8, 52u8],
            TreeObjMode::ExecutableFile => vec![49u8, 48u8, 48u8, 55u8, 53u8, 53u8],
            TreeObjMode::Link => vec![49u8, 50u8, 48u8, 48u8, 48u8, 48u8],
        }
    }

    /// The six-digit mode shown when listing a tree.
    pub fn display_bytes(&self) -> (r: Vec<u8>)
        ensures
            r@ == mode_display(*self),
    {
        match self {
            TreeObjMode::Directory => vec![48u8, 52u8, 48u8, 48u8, 48u8, 48u8],
            _ => self.as_bytes(),
        }
    }

    /// The kind of object that an entry with this mode refers to.
    pub fn object_type(&self) -> (r: ObjType)
        ensures
            r == mode_kind(*self),
    {
        match self {
            TreeObjMode::Directory => ObjType::Tree,
            _ => ObjType::Blob,
        }
    }
}

/// One named reference of a tree.
#[derive(Debug, Clone)]
pub struct TreeEntry {
    pub mode: TreeObjMode,
    pub name: Vec<u8>,
    pub hash: ObjectHash,
}

/// How an entry is listed: `"<mode> <kind> <hex hash>\t<name>"`.
pub open spec fn entry_line(e: EntryView) -> Seq<u8> {
    mode_display(e.mode) + seq![32u8] + kind_token(mode_kind(e.mode)) + seq![32u8] + hex_bytes(
        e.hash,
    ) + seq![9u8] + e.name
}

impl TreeEntry {
    /// The entry as a listing line, without a line break.
    pub fn to_line(&self) -> (r: Vec<u8>)
        ensures
            r@ == entry_line(self@),
    {
        let mut r = self.mode.display_bytes();
        r.push(32u8);
        let kind = self.mode.object_type().token();
        append_bytes(&mut r, kind.as_slice());
        r.push(32u8);
        let hex = self.hash.to_hex_bytes();
        append_bytes(&mut r, hex.as_slice());
        r.push(9u8);
        append_bytes(&mut r, self.name.as_slice());
        r
    }

    /// A copy of this entry.
    pub fn duplicate(&self) -> (r: TreeEntry)
        ensures
            r@ == self@,
    {
        let name = copy_range(self.name.as_slice(), 0, self.name.len());
        assert(name@ =~= self.name@);
        TreeEntry { mode: self.mode, name, hash: self.hash }
    }
}

/// A tree entry as values.
pub struct EntryView {
    pub mode: TreeObjMode,
    pub name: Seq<u8>,
    pub hash: Seq<u8>,
}

impl View for TreeEntry {
    type V = EntryView;

    open spec fn view(&self) -> EntryView {
        EntryView { mode: self.mode, name: self.name@, hash: self.hash.bytes@ }
    }
}

pub open spec fn entries_view(v: Seq<TreeEntry>) -> Seq<EntryView> {
    v.map_values(|e: TreeEntry| e@)
}

/// The encoding of one entry: `"<mode> <name>\0"` and the 20 hash bytes.
pub open spec fn entry_bytes(e: EntryView) -> Seq<u8> {
    mode_token(e.mode) + seq![32u8] + e.name + seq![0u8] + e.hash
}

/// The body of a tree: its entries' encodings, in order.
pub open spec fn tree_body(es: Seq<EntryView>) -> Seq<u8>
    decreases es.len(),
{
    if es.len() == 0 {
        Seq::empty()
    } else {
        entry_bytes(es[0]) + tree_body(es.drop_first())
    }
}

/// Reading a tree body: mode token up to a space, name up to a NUL, then
/// twenty hash bytes, until the bytes end exactly between entries.
pub open spec fn parse_entries(s: Seq<u8>) -> Option<Seq<EntryView>>
    decreases s.len(),
{
    if s.len() == 0 {
        Some(Seq::empty())
    } else {
        let sp = scan(s, 32u8, 0);
        let nul = scan(s, 0u8, sp + 1);
        if sp >= s.len() || nul >= s.len() || nul + 21 > s.len() {
            None
        } else {
            match mode_of_token(s.subrange(0, sp)) {
                None => None,
                Some(m) => {
                    proof {
                        lemma_scan(s, 32u8, 0);
                        lemma_scan(s, 0u8, sp + 1);
                    }
                    match parse_entries(s.subrange(nul + 21, s.len() as int)) {
                        None => None,
                        Some(rest) => Some(
                            seq![
                                EntryView {
                                    mode: m,
                                    name: s.subrange(sp + 1, nul),
                                    hash: s.subrange(nul + 1, nul + 21),
                                },
                            ] + rest,
                        ),
                    }
                },
            }
        }
    }
}

/// An entry whose name can be written and read back: no NUL byte in it,
/// and a 20-byte hash.
pub open spec fn well_formed_entry(e: EntryView) -> bool {
    &&& e.hash.len() == 20
    &&& forall|i: int| 0 <= i < e.name.len() ==> e.name[i] != 0u8
}

proof fn lemma_body_push(es: Seq<EntryView>, e: EntryView)
    ensures
        tree_body(es.push(e)) == tree_body(es) + entry_bytes(e),
    decreases es.len(),
{
    if es.len() == 0 {
        assert(es.push(e).drop_first() =~= Seq::<EntryView>::empty());
        assert(tree_body(es.push(e).drop_first()) =~= Seq::<u8>::empty());
        assert(tree_body(es.push(e)) =~= entry_bytes(e) + Seq::<u8>::empty());
        assert(tree_body(es) =~= Seq::<u8>::empty());
        assert(tree_body(es) + entry_bytes(e) =~= entry_bytes(e));
    } else {
        assert(es.push(e).drop_first() =~= es.drop_first().push(e));
        lemma_body_push(es.drop_first(), e);
        assert(tree_body(es.push(e)) =~= entry_bytes(es[0]) + (tree_body(es.drop_first())
            + entry_bytes(e)));
    }
}

/// Reading the body of well-formed entries gives back those entries.
pub proof fn lemma_tree_round_trip(es: Seq<EntryView>)
    requires
        forall|i: int| 0 <= i < es.len() ==> well_formed_entry(#[trigger] es[i]),
    ensures
        parse_entries(tree_body(es)) == Some(es),
    decreases es.len(),
{
    if es.len() == 0 {
        assert(tree_body(es) =~= Seq::<u8>::empty());
        assert(Seq::<EntryView>::empty() =~= es);
    } else {
        let e = es[0];
        assert(well_formed_entry(e));
        let rest = es.drop_first();
        assert forall|i: int| 0 <= i < rest.len() implies well_formed_entry(#[trigger] rest[i]) by {
            assert(rest[i] == es[i + 1]);
        }
        lemma_tree_round_trip(rest);
        let eb = entry_bytes(e);
        let s = tree_body(es);
        assert(s == eb + tree_body(rest));
        let t = mode_token(e.mode);
        lemma_mode_token(e.mode);
        let sp = t.len() as int;
        let nul = sp + 1 + e.name.len();
        assert(s[sp] == 32u8);
        assert forall|i: int| 0 <= i < sp implies s[i] != 32u8 by {
            assert(s[i] == t[i]);
        }
        lemma_scan_at(s, 32u8, 0, sp);
        assert(s[nul] == 0u8);
        assert forall|i: int| sp + 1 <= i < nul implies s[i] != 0u8 by {
            assert(s[i] == e.name[i - sp - 1]);
        }
        lemma_scan_at(s, 0u8, sp + 1, nul);
        assert(s.subrange(0, sp) =~= t);
        assert(s.subrange(sp + 1, nul) =~= e.name);
        assert(s.subrange(nul + 1, nul + 21) =~= e.hash);
        assert(s.subrange(nul + 21, s.len() as int) =~= tree_body(rest));
        let first = EntryView {
            mode: e.mode,
            name: s.subrange(sp + 1, nul),
            hash: s.subrange(nul + 1, nul + 21),
        };
        assert(first == e);
        assert(seq![first] + rest =~= es);
    }
}

#[verifier::external_type_specification]
#[verifier::external_body]
pub struct ExBytesMut(bytes::BytesMut);

/// The bytes that a `BytesMut` buffer holds.
pub uninterp spec fn buffered(b: bytes::BytesMut) -> Seq<u8>;

/// Relies on `bytes::BytesMut::with_capacity`: a new, empty buffer.
#[verifier::external_body]
fn buf_with_capacity(capacity: usize) -> (r: bytes::BytesMut)
    ensures
        buffered(r) == Seq::<u8>::empty(),
{
    bytes::BytesMut::with_capacity(capacity)
}

/// Relies on `BufMut::put_slice` for `BytesMut`: appends the slice.
#[verifier::external_body]
fn buf_put_slice(b: &mut bytes::BytesMut, src: &[u8])
    requires
        buffered(*old(b)).len() + src@.len() <= usize::MAX,
    ensures
        buffered(*final(b)) == buffered(*old(b)) + src@,
{
    bytes::BufMut::put_slice(b, src)
}

/// Relies on `BufMut::put_u8` for `BytesMut`: appends one byte.
#[verifier::external_body]
fn buf_put_u8(b: &mut bytes::BytesMut, n: u8)
    requires
        buffered(*old(b)).len() + 1 <= usize::MAX,
    ensures
        buffered(*final(b)) == buffered(*old(b)).push(n),
{
    bytes::BufMut::put_u8(b, n)
}

/// Relies on `bytes::BytesMut::freeze`: the frozen buffer holds the same
/// bytes, copied out here.
#[verifier::external_body]
fn buf_into_vec(b: bytes::BytesMut) -> (r: Vec<u8>)
    ensures
        r@ == buffered(b),
{
    b.freeze().to_vec()
}

proof fn lemma_body_prefix_len(es: Seq<EntryView>, i: int)
    requires
        0 <= i <= es.len(),
    ensures
        tree_body(es.take(i)).len() <= tree_body(es).len(),
    decreases es.len() - i,
{
    if i < es.len() {
        lemma_body_prefix_len(es, i + 1);
        assert(es.take(i + 1) =~= es.take(i).push(es[i]));
        lemma_body_push(es.take(i), es[i]);
    } else {
        assert(es.take(i) =~= es);
    }
}

/// Serialises a tree's entries, in the order given.
pub fn encode_tree(tree: &Vec<TreeEntry>) -> (r: Vec<u8>)
    requires
        fits(tree_body(entries_view(tree@))),
    ensures
        r@ == tree_body(entries_view(tree@)),
{
    let ghost all = entries_view(tree@);
    let capacity: usize = if tree.len() <= usize::MAX / 48 {
        tree.len() * 48
    } else {
        0
    };
    let mut buf = buf_with_capacity(capacity);
    let mut i: usize = 0;
    assert(all.take(0) =~= Seq::<EntryView>::empty());
    while i < tree.len()
        invariant
            all == entries_view(tree@),
            fits(tree_body(all)),
            i <= tree@.len(),
            buffered(buf) == tree_body(entries_view(tree@.subrange(0, i as int))),
        decreases tree@.len() - i,
    {
        let ent = &tree[i];
        proof {
            let pre = entries_view(tree@.subrange(0, i as int));
            assert(pre =~= all.take(i as int));
            assert(entries_view(tree@.subrange(0, i + 1)) =~= pre.push(ent@));
            assert(all.take(i + 1) =~= pre.push(ent@));
            lemma_body_push(pre, ent@);
            lemma_body_prefix_len(all, i + 1);
        }
        let mode = ent.mode.as_bytes();
        buf_put_slice(&mut buf, mode.as_slice());
        buf_put_u8(&mut buf, 32u8);
        buf_put_slice(&mut buf, ent.name.as_slice());
        buf_put_u8(&mut buf, 0u8);
        buf_put_slice(&mut buf, ent.hash.bytes.as_slice());
        proof {
            let pre = entries_view(tree@.subrange(0, i as int));
            assert(buffered(buf) =~= tree_body(pre) + entry_bytes(ent@));
        }
        i = i + 1;
    }
    assert(tree@.subrange(0, i as int) =~= tree@);
    buf_into_vec(buf)
}

/// Serialises a tree and computes its fingerprint as a tree object.
pub fn hash_tree(tree: &Vec<TreeEntry>) -> (r: (ObjectHash, Vec<u8>))
    requires
        fits(tree_body(entries_view(tree@))),
    ensures
        r.1@ == tree_body(entries_view(tree@)),
        r.0.bytes@ == object_id(ObjType::Tree, r.1@),
{
    let body = encode_tree(tree);
    let hash = hash_content(ObjType::Tree, body.as_slice());
    (hash, body)
}

pub open spec fn parsed_view(r: Result<Vec<TreeEntry>, ObjectError>) -> Option<
    Seq<EntryView>,
> {
    match r {
        Ok(v) => Some(entries_view(v@)),
        Err(_) => None,
    }
}

pub open spec fn prepend(a: Seq<EntryView>, o: Option<Seq<EntryView>>) -> Option<Seq<EntryView>> {
    match o {
        Some(r) => Some(a + r),
        None => None,
    }
}

/// Reads a tree body into its entries, in encoded order. Fails with
/// `Corrupt` on an unknown mode token or when the bytes end inside an entry.
pub fn parse_tree(body: &[u8]) -> (r: Result<Vec<TreeEntry>, ObjectError>)
    ensures
        parsed_view(r) == parse_entries(body@),
        r matches Err(e) ==> e == ObjectError::Corrupt,
{
    let ghost s = body@;
    let mut acc: Vec<TreeEntry> = Vec::new();
    let mut pos: usize = 0;
    proof {
        assert(s.subrange(0, s.len() as int) =~= s);
        if let Some(t) = parse_entries(s) {
            assert(entries_view(acc@) + t =~= t);
        }
    }
    while pos < body.len()
        invariant
            s == body@,
            pos <= s.len(),
            parse_entries(s) == prepend(entries_view(acc@), parse_entries(s.subrange(pos as int, s.len() as int))),
        decreases s.len() - pos,
    {
        let ghost rest = s.subrange(pos as int, s.len() as int);
        proof {
            lemma_scan(s, 32u8, pos as int);
        }
        let sp = find_byte(body, 32u8, pos);
        proof {
            lemma_scan_at(rest, 32u8, 0, sp - pos);
        }
        if sp >= body.len() {
            return Err(ObjectError::Corrupt);
        }
        let token = copy_range(body, pos, sp);
        assert(token@ =~= rest.subrange(0, sp - pos));
        let mode = match TreeObjMode::from(token.as_slice()) {
            Some(m) => m,
            None => return Err(ObjectError::Corrupt),
        };
        proof {
            lemma_scan(s, 0u8, sp + 1);
        }
        let nul = find_byte(body, 0u8, sp + 1);
        proof {
            lemma_scan_at(rest, 0u8, sp + 1 - pos, nul - pos);
        }
        if nul >= body.len() || body.len() - nul < 21 {
            return Err(ObjectError::Corrupt);
        }
        let name = copy_range(body, sp + 1, nul);
        let hash = ObjectHash::from_slice_at(body, nul + 1);
        let ent = TreeEntry { mode, name, hash };
        proof {
            assert(ent@.name =~= rest.subrange(sp + 1 - pos, nul - pos));
            assert(ent@.hash =~= rest.subrange(nul + 1 - pos, nul + 21 - pos));
            assert(s.subrange(nul + 21, s.len() as int) =~= rest.subrange(nul + 21 - pos, rest.len() as int));
        }
        let ghost before = entries_view(acc@);
        acc.push(ent);
        pos = nul + 21;
        proof {
            assert(entries_view(acc@) =~= before.push(ent@));
            let tail = parse_entries(s.subrange(pos as int, s.len() as int));
            if let Some(t) = tail {
                assert(before + (seq![ent@] + t) =~= before.push(ent@) + t);
            }
        }
    }
    proof {
        assert(s.subrange(pos as int, s.len() as int) =~= Seq::<u8>::empty());
        assert(entries_view(acc@) + Seq::<EntryView>::empty() =~= entries_view(acc@));
    }
    Ok(acc)
}

} // verus!
