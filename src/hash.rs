use vstd::prelude::*;
use sha1::Digest;
use crate::text::bytes_eq;
use vstd::slice::slice_to_vec;

verus! {

/// The SHA-1 digest of a byte string.
pub uninterp spec fn sha1_of(data: Seq<u8>) -> Seq<u8>;

/// A 20-byte object fingerprint.
#[derive(Debug, Clone, Copy)]
pub struct ObjectHash {
    pub bytes: [u8; 20],
}

impl PartialEq for ObjectHash {
    fn eq(&self, o: &ObjectHash) -> (r: bool)
        ensures
            r == (self.bytes@ == o.bytes@),
    {
        bytes_eq(self.bytes.as_slice(), o.bytes.as_slice())
    }
}

impl vstd::std_specs::cmp::PartialEqSpecImpl for ObjectHash {
    open spec fn obeys_eq_spec() -> bool {
        true
    }

    open spec fn eq_spec(&self, o: &ObjectHash) -> bool {
        self.bytes@ == o.bytes@
    }
}

/// Relies on sha1's `Digest::digest` for `Sha1`: the 20-byte SHA-1 digest,
/// a function of the input bytes alone.
#[verifier::external_body]
fn sha1_digest(data: &[u8]) -> (r: [u8; 20])
    ensures
        r@ == sha1_of(data@),
{
    sha1::Sha1::digest(data).into()
}

/// The fingerprint of a byte string.
pub fn digest_bytes(data: &[u8]) -> (r: ObjectHash)
    ensures
        r.bytes@ == sha1_of(data@),
{
    ObjectHash { bytes: sha1_digest(data) }
}

/// The lowercase hex digit of a value below 16.
pub open spec fn hex_digit(n: int) -> char {
    if n < 10 {
        (48 + n) as char
    } else {
        (87 + n) as char
    }
}

/// Two lowercase hex digits per byte, high nibble first.
pub open spec fn hex_text(b: Seq<u8>) -> Seq<char> {
    Seq::new(
        2 * b.len(),
        |i: int|
            if i % 2 == 0 {
                hex_digit(b[i / 2] as int / 16)
            } else {
                hex_digit(b[i / 2] as int % 16)
            },
    )
}

/// Relies on hex::encode: two lowercase hex digits for each byte, high
/// nibble first.
#[verifier::external_body]
fn hex_encode(b: &[u8; 20]) -> (r: String)
    ensures
        r@ == hex_text(b@),
{
    hex::encode(b)
}

pub open spec fn is_hex_char(c: char) -> bool {
    ('0' <= c <= '9') || ('a' <= c <= 'f') || ('A' <= c <= 'F')
}

/// A plausible object name: forty hex digits.
pub open spec fn plausible_sha(s: Seq<char>) -> bool {
    s.len() == 40 && forall|i: int| 0 <= i < s.len() ==> is_hex_char(#[trigger] s[i])
}

/// Where the object named `s` is stored, relative to the store's root.
pub open spec fn object_path(s: Seq<char>) -> Seq<char> {
    seq!['o', 'b', 'j', 'e', 'c', 't', 's', '/'] + s.subrange(0, 2) + seq!['/'] + s.subrange(
        2,
        s.len() as int,
    )
}

impl ObjectHash {
    /// The twenty bytes of `s` that start at `at`.
    pub fn from_slice_at(s: &[u8], at: usize) -> (r: ObjectHash)
        requires
            at + 20 <= s@.len(),
        ensures
            r.bytes@ == s@.subrange(at as int, at + 20),
    {
        let mut h = [0u8; 20];
        let mut i: usize = 0;
        let n = s.len();
        while i < 20
            invariant
                at + 20 <= s@.len(),
                n == s@.len(),
                i <= 20,
                h@.len() == 20,
                forall|k: int| 0 <= k < i ==> h@[k] == s@[at + k],
            decreases 20 - i,
        {
            h[i] = s[at + i];
            i = i + 1;
        }
        assert(h@ =~= s@.subrange(at as int, at + 20));
        ObjectHash { bytes: h }
    }

    pub open spec fn hex(&self) -> Seq<char> {
        hex_text(self.bytes@)
    }

    /// The fingerprint in forty lowercase hex digits.
    pub fn to_hex(&self) -> (r: String)
        ensures
            r@ == self.hex(),
            plausible_sha(r@),
    {
        let r = hex_encode(&self.bytes);
        proof {
            assert forall|i: int| 0 <= i < r@.len() implies is_hex_char(#[trigger] r@[i]) by {
                let n = if i % 2 == 0 {
                    self.bytes@[i / 2] as int / 16
                } else {
                    self.bytes@[i / 2] as int % 16
                };
                assert(r@[i] == hex_digit(n));
            }
        }
        r
    }
}

/// The hex rendering of `b` as ASCII bytes.
pub open spec fn hex_bytes(b: Seq<u8>) -> Seq<u8> {
    hex_text(b).map_values(|c: char| c as u8)
}

impl ObjectHash {
    /// The fingerprint in forty lowercase hex digits, as bytes.
    pub fn to_hex_bytes(&self) -> (r: Vec<u8>)
        ensures
            r@ == hex_bytes(self.bytes@),
    {
        broadcast use vstd::string::is_ascii_spec_bytes;

        let s = self.to_hex();
        let t = s.as_str();
        assert(vstd::string::is_ascii(t)) by {
            assert forall|i: int| 0 <= i < t@.len() implies '\0' <= #[trigger] t@[i] <= '\u{7f}' by {
                assert(is_hex_char(t@[i]));
            }
        }
        let r = slice_to_vec(t.as_bytes());
        assert(r@ =~= hex_bytes(self.bytes@));
        r
    }
}

/// Whether `s` is forty hex digits.
pub fn is_plausibly_obj_sha(maybe_obj_sha: &str) -> (r: bool)
    ensures
        r == plausible_sha(maybe_obj_sha@),
{
    let n = maybe_obj_sha.unicode_len();
    if n != 40 {
        return false;
    }
    let mut i: usize = 0;
    while i < 40
        invariant
            n == 40,
            maybe_obj_sha@.len() == 40,
            i <= 40,
            forall|k: int| 0 <= k < i ==> is_hex_char(#[trigger] maybe_obj_sha@[k]),
        decreases 40 - i,
    {
        let c = maybe_obj_sha.get_char(i);
        if !(('0' <= c && c <= '9') || ('a' <= c && c <= 'f') || ('A' <= c && c <= 'F')) {
            return false;
        }
        i = i + 1;
    }
    true
}

/// The storage path of the object named by forty hex digits:
/// `objects/<first two digits>/<other thirty-eight>`.
pub fn obj_path_from_sha(obj_sha: &str) -> (r: String)
    requires
        plausible_sha(obj_sha@),
    ensures
        r@ == object_path(obj_sha@),
{
    assert(obj_sha.is_ascii()) by {
        assert forall|i: int| 0 <= i < obj_sha@.len() implies '\0' <= #[trigger] obj_sha@[i]
            <= '\u{7f}' by {
            assert(is_hex_char(obj_sha@[i]));
        }
    }
    let dir = obj_sha.substring_ascii(0, 2);
    let file = obj_sha.substring_ascii(2, 40);
    let prefix = "objects/";
    let sep = "/";
    proof {
        reveal_strlit("objects/");
        reveal_strlit("/");
    }
    let r = String::from_str(prefix).concat(dir).concat(sep).concat(file);
    assert(r@ =~= object_path(obj_sha@));
    r
}

} // verus!
