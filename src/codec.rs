use vstd::prelude::*;
use std::io::{Read, Write};
use crate::decimal::{
    all_digits, decimal, decimal_field_ok, digits_value, format_decimal, lemma_decimal,
    parse_decimal,
};
use crate::hash::{digest_bytes, sha1_of, ObjectHash};
use crate::kind::{kind_of_token, kind_token, lemma_kind_token, ObjType};
use crate::text::{append_bytes, copy_range, find_byte, lemma_scan, lemma_scan_at, scan};

verus! {

/// Why an object could not be stored or read.
#[derive(Debug, Clone, Copy, PartialEq, Eq, Structural)]
pub enum ObjectError {
    /// No object file holds the requested hash.
    NotFound,
    /// Undecompressable bytes, a bad header, or bad tree framing.
    Corrupt,
    /// A read or write failed.
    Io,
    /// A malformed object name or path.
    InvalidInput,
}

/// A decoded object: its kind, its declared length and its content.
#[derive(Debug, Clone)]
pub struct StoredObject {
    pub kind: ObjType,
    pub size: usize,
    pub content: Vec<u8>,
}

/// The canonical header `"<kind> <decimal length>\0"`.
pub open spec fn header(k: ObjType, len: nat) -> Seq<u8> {
    kind_token(k) + seq![32u8] + decimal(len) + seq![0u8]
}

/// The uncompressed layout of an object: header, then content.
pub open spec fn frame(k: ObjType, c: Seq<u8>) -> Seq<u8> {
    header(k, c.len()) + c
}

/// The identity of an object: SHA-1 over its frame.
pub open spec fn object_id(k: ObjType, c: Seq<u8>) -> Seq<u8> {
    sha1_of(frame(k, c))
}

/// Reading a frame: the kind token up to the first space, the decimal
/// length up to the next NUL, then exactly that many bytes of content.
pub open spec fn parse_frame(x: Seq<u8>) -> Result<(ObjType, Seq<u8>), ObjectError> {
    let sp = scan(x, 32u8, 0);
    let nul = scan(x, 0u8, sp + 1);
    if sp >= x.len() {
        Err(ObjectError::Corrupt)
    } else if kind_of_token(x.subrange(0, sp)) is None {
        Err(ObjectError::Corrupt)
    } else if nul >= x.len() {
        Err(ObjectError::Corrupt)
    } else if !decimal_field_ok(x.subrange(sp + 1, nul)) {
        Err(ObjectError::Corrupt)
    } else if x.len() - (nul + 1) != digits_value(x.subrange(sp + 1, nul)) {
        Err(ObjectError::Corrupt)
    } else {
        Ok((kind_of_token(x.subrange(0, sp)).unwrap(), x.subrange(nul + 1, x.len() as int)))
    }
}

/// zlib's compressed form of a byte string.
pub uninterp spec fn zlib_compressed(data: Seq<u8>) -> Seq<u8>;

/// What zlib decompression makes of a byte string, if it is a stream.
pub uninterp spec fn zlib_decompressed(data: Seq<u8>) -> Option<Seq<u8>>;

/// Relies on flate2's `write::ZlibEncoder` at the default level, writing
/// into a `Vec`: the zlib stream of the input, a function of the input
/// bytes alone. A `Vec` writer never fails and the compressor's default
/// settings reach no error, so the result is always present.
#[verifier::external_body]
fn zlib_compress(data: &[u8]) -> (r: Option<Vec<u8>>)
    ensures
        r is Some,
        r matches Some(v) ==> v@ == zlib_compressed(data@),
{
    let mut enc = flate2::write::ZlibEncoder::new(Vec::new(), flate2::Compression::default());
    match enc.write_all(data) {
        Ok(()) => enc.finish().ok(),
        Err(_) => None,
    }
}

/// Relies on flate2's `read::ZlibDecoder` read to the end: the bytes that
/// the stream decompresses to, an error for a corrupt or truncated stream,
/// and the original bytes back for a stream that the encoder produced.
#[verifier::external_body]
fn zlib_decompress(data: &[u8]) -> (r: Option<Vec<u8>>)
    ensures
        r is Some <==> zlib_decompressed(data@) is Some,
        r matches Some(v) ==> zlib_decompressed(data@) == Some(v@),
        forall|x: Seq<u8>| #[trigger] zlib_compressed(x) == data@ ==> decompresses_to(r, x),
{
    let mut out = Vec::new();
    match flate2::read::ZlibDecoder::new(data).read_to_end(&mut out) {
        Ok(_) => Some(out),
        Err(_) => None,
    }
}

pub open spec fn decompresses_to(r: Option<Vec<u8>>, x: Seq<u8>) -> bool {
    r matches Some(v) && v@ == x
}

/// What decoding stored bytes yields.
pub open spec fn decode_model(z: Seq<u8>) -> Result<(ObjType, Seq<u8>), ObjectError> {
    match zlib_decompressed(z) {
        None => Err(ObjectError::Corrupt),
        Some(x) => parse_frame(x),
    }
}

impl View for StoredObject {
    type V = (ObjType, Seq<u8>);

    open spec fn view(&self) -> (ObjType, Seq<u8>) {
        (self.kind, self.content@)
    }
}

pub open spec fn decoded_view(r: Result<StoredObject, ObjectError>) -> Result<
    (ObjType, Seq<u8>),
    ObjectError,
> {
    match r {
        Ok(o) => Ok(o@),
        Err(e) => Err(e),
    }
}

/// The longest content whose frame still fits in memory.
pub open spec fn fits(c: Seq<u8>) -> bool {
    c.len() + 64 <= usize::MAX
}

/// Builds the header of an object of kind `k` with `len` content bytes.
pub fn encode_header(k: ObjType, len: usize) -> (r: Vec<u8>)
    ensures
        r@ == header(k, len as nat),
{
    let mut r = k.token();
    r.push(32u8);
    let digits = format_decimal(len);
    append_bytes(&mut r, digits.as_slice());
    r.push(0u8);
    r
}

/// Builds the uncompressed layout of an object.
pub fn encode_frame(k: ObjType, content: &[u8]) -> (r: Vec<u8>)
    requires
        fits(content@),
    ensures
        r@ == frame(k, content@),
{
    let mut r = encode_header(k, content.len());
    append_bytes(&mut r, content);
    r
}

/// Reads an uncompressed object layout.
pub fn decode_frame(x: &[u8]) -> (r: Result<StoredObject, ObjectError>)
    ensures
        decoded_view(r) == parse_frame(x@),
        r matches Ok(o) ==> o.size == o.content@.len(),
{
    proof {
        lemma_scan(x@, 32u8, 0);
    }
    let sp = find_byte(x, 32u8, 0);
    if sp >= x.len() {
        return Err(ObjectError::Corrupt);
    }
    let token = copy_range(x, 0, sp);
    let kind = match ObjType::from_token(token.as_slice()) {
        Some(k) => k,
        None => return Err(ObjectError::Corrupt),
    };
    proof {
        lemma_scan(x@, 0u8, sp + 1);
    }
    let nul = find_byte(x, 0u8, sp + 1);
    if nul >= x.len() {
        return Err(ObjectError::Corrupt);
    }
    let field = copy_range(x, sp + 1, nul);
    let size = match parse_decimal(field.as_slice()) {
        Some(n) => n,
        None => return Err(ObjectError::Corrupt),
    };
    if x.len() - (nul + 1) != size {
        return Err(ObjectError::Corrupt);
    }
    let content = copy_range(x, nul + 1, x.len());
    Ok(StoredObject { kind, size, content })
}

/// Reading a frame gives back the kind and content it was built from.
pub proof fn lemma_frame_round_trip(k: ObjType, c: Seq<u8>)
    requires
        c.len() <= usize::MAX,
    ensures
        parse_frame(frame(k, c)) == Ok::<(ObjType, Seq<u8>), ObjectError>((k, c)),
{
    let x = frame(k, c);
    let t = kind_token(k);
    let d = decimal(c.len());
    lemma_kind_token(k);
    lemma_decimal(c.len());
    let sp = t.len() as int;
    let nul = sp + 1 + d.len();
    assert(x[sp] == 32u8);
    assert forall|i: int| 0 <= i < sp implies x[i] != 32u8 by {
        assert(x[i] == t[i]);
    }
    lemma_scan_at(x, 32u8, 0, sp);
    assert(x[nul] == 0u8);
    assert forall|i: int| sp + 1 <= i < nul implies x[i] != 0u8 by {
        assert(x[i] == d[i - sp - 1]);
        assert(all_digits(d));
    }
    lemma_scan_at(x, 0u8, sp + 1, nul);
    assert(x.subrange(0, sp) =~= t);
    assert(x.subrange(sp + 1, nul) =~= d);
    assert(x.subrange(nul + 1, x.len() as int) =~= c);
    assert(decimal_field_ok(d));
    assert(kind_of_token(x.subrange(0, sp)) == Some(k));
}

/// The fingerprint of an object of kind `k` with content `content`.
pub fn hash_content(k: ObjType, content: &[u8]) -> (r: ObjectHash)
    requires
        fits(content@),
    ensures
        r.bytes@ == object_id(k, content@),
{
    let f = encode_frame(k, content);
    digest_bytes(f.as_slice())
}

/// The fingerprint of a file's content, stored as a blob.
pub fn hash_file(content: &[u8]) -> (r: ObjectHash)
    requires
        fits(content@),
    ensures
        r.bytes@ == object_id(ObjType::Blob, content@),
{
    hash_content(ObjType::Blob, content)
}

/// The stored, compressed form of an object.
pub fn encode_object(otype: ObjType, content: &[u8]) -> (r: Vec<u8>)
    requires
        fits(content@),
    ensures
        r@ == zlib_compressed(frame(otype, content@)),
{
    let f = encode_frame(otype, content);
    zlib_compress(f.as_slice()).unwrap()
}

/// Decodes stored bytes: decompression, then the frame. Bytes that the
/// encoder produced from `(k, c)` decode to exactly `(k, c)`.
pub fn object_decoder(object: &[u8]) -> (r: Result<StoredObject, ObjectError>)
    ensures
        decoded_view(r) == decode_model(object@),
        r matches Ok(o) ==> o.size == o.content@.len(),
        forall|x: Seq<u8>| #[trigger]
            zlib_compressed(x) == object@ ==> decoded_view(r) == parse_frame(x),
        forall|k: ObjType, c: Seq<u8>|
            c.len() <= usize::MAX && #[trigger] zlib_compressed(frame(k, c)) == object@
                ==> decoded_view(r) == Ok::<(ObjType, Seq<u8>), ObjectError>((k, c)),
{
    proof {
        assert forall|k: ObjType, c: Seq<u8>|
            c.len() <= usize::MAX && #[trigger] zlib_compressed(frame(k, c))
                == object@ implies parse_frame(frame(k, c)) == Ok::<
            (ObjType, Seq<u8>),
            ObjectError,
        >((k, c)) by {
            lemma_frame_round_trip(k, c);
        }
    }
    match zlib_decompress(object) {
        None => Err(ObjectError::Corrupt),
        Some(x) => decode_frame(x.as_slice()),
    }
}

} // verus!
