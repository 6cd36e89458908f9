//! Loose-object storage: the `"<kind> <len>\0<content>"` framing, its SHA-1
//! name, zlib compression, and where an object lives under `.git/objects`.
use vstd::prelude::*;
use vstd::utf8::{encode_utf8, is_ascii_chars};
use crate::bytes::push_all;
use crate::codec::{
    from_utf8_lossy, hex_encode, hex_lower, lossy_decode, sha1_digest, sha1_of, utf8_bytes,
    zlib_compress, zlib_decompress, zlib_deflate, zlib_inflate,
};
use crate::text::{chars_of, string_of};

verus! {

/// The ASCII decimal digits of `n`, without leading zeros.
pub open spec fn ascii_decimal(n: nat) -> Seq<u8>
    decreases n,
{
    if n < 10 {
        seq![(48 + n) as u8]
    } else {
        ascii_decimal(n / 10).push((48 + n % 10) as u8)
    }
}

proof fn lemma_ascii_decimal_digits(n: nat)
    ensures
        ascii_decimal(n).len() >= 1,
        forall|i: int| 0 <= i < ascii_decimal(n).len() ==> 48 <= #[trigger] ascii_decimal(n)[i] <= 57,
    decreases n,
{
    if n >= 10 {
        lemma_ascii_decimal_digits(n / 10);
    }
}

/// Appends the ASCII decimal digits of `n`.
pub fn push_decimal_bytes(out: &mut Vec<u8>, n: usize)
    ensures
        final(out)@ == old(out)@ + ascii_decimal(n as nat),
    decreases n,
{
    if n < 10 {
        out.push(48u8 + n as u8);
    } else {
        push_decimal_bytes(out, n / 10);
        out.push(48u8 + (n % 10) as u8);
    }
    assert(out@ =~= old(out)@ + ascii_decimal(n as nat));
}

/// The bytes an object is stored as before compression: kind, a space, the
/// content length in decimal, a NUL byte, then the content.
pub open spec fn store_bytes(kind: Seq<char>, content: Seq<u8>) -> Seq<u8> {
    encode_utf8(kind) + seq![32u8] + ascii_decimal(content.len()) + seq![0u8] + content
}

/// The hexadecimal object name of `kind` + `content`.
pub open spec fn object_id(kind: Seq<char>, content: Seq<u8>) -> Seq<char> {
    hex_lower(sha1_digest(store_bytes(kind, content))@)
}

/// An object ready to be written: its name and its compressed bytes.
pub struct StoredObject {
    pub hash: String,
    pub data: Vec<u8>,
}

/// `o` is the stored form of the object `kind` + `content`: its name and its
/// compressed bytes.
pub open spec fn stores(o: StoredObject, kind: Seq<char>, content: Seq<u8>) -> bool {
    &&& o.hash@ == object_id(kind, content)
    &&& o.data@ == zlib_compress(store_bytes(kind, content))
}

/// The framed, uncompressed bytes of an object.
pub fn frame_object(kind: &str, content: &[u8]) -> (r: Vec<u8>)
    ensures
        r@ == store_bytes(kind@, content@),
{
    let mut store = utf8_bytes(kind);
    store.push(32u8);
    push_decimal_bytes(&mut store, content.len());
    store.push(0u8);
    push_all(&mut store, content);
    store
}

/// The object name (hex SHA-1 of the framed bytes) of `kind` + `content`.
pub fn hash_object_id(kind: &str, content: &[u8]) -> (r: String)
    ensures
        r@ == object_id(kind@, content@),
{
    let store = frame_object(kind, content);
    let digest = sha1_of(store.as_slice());
    hex_encode(digest.as_slice())
}

/// Frames, names and compresses an object for the object store.
pub fn encode_object(kind: &str, content: &[u8]) -> (r: StoredObject)
    ensures
        r.hash@ == object_id(kind@, content@),
        r.data@ == zlib_compress(store_bytes(kind@, content@)),
        zlib_decompress(r.data@) == Some(store_bytes(kind@, content@)),
{
    let store = frame_object(kind, content);
    let digest = sha1_of(store.as_slice());
    let hash = hex_encode(digest.as_slice());
    let data = zlib_deflate(store.as_slice());
    StoredObject { hash, data }
}

/// The file under `.git/objects` that holds the object named `hash`: the first
/// two characters name the directory, the rest the file.
pub open spec fn object_path_of(hash: Seq<char>) -> Seq<char> {
    ".git/objects/"@ + hash.subrange(0, 2) + seq!['/'] + hash.skip(2)
}

/// Where the object named `hash` is stored.
pub fn object_path(hash: &str) -> (r: String)
    requires
        hash@.len() >= 2,
    ensures
        r@ == object_path_of(hash@),
{
    let cs = chars_of(hash);
    let mut out: Vec<char> = Vec::new();
    crate::text::push_str(&mut out, ".git/objects/");
    out.push(cs[0]);
    out.push(cs[1]);
    out.push('/');
    let mut i: usize = 2;
    let ghost base = out@;
    while i < cs.len()
        invariant
            cs@ == hash@,
            2 <= i <= cs@.len(),
            out@ == base + cs@.subrange(2, i as int),
        decreases cs@.len() - i,
    {
        out.push(cs[i]);
        i += 1;
        assert(out@ =~= base + cs@.subrange(2, i as int));
    }
    assert(base =~= ".git/objects/"@ + hash@.subrange(0, 2) + seq!['/']);
    assert(cs@.subrange(2, cs@.len() as int) =~= hash@.skip(2));
    string_of(&out)
}

/// Position of the first `b` in `s`, or -1.
pub open spec fn first_byte(s: Seq<u8>, b: u8) -> int
    decreases s.len(),
{
    if s.len() == 0 {
        -1
    } else if s[0] == b {
        0
    } else {
        let r = first_byte(s.drop_first(), b);
        if r < 0 {
            -1
        } else {
            r + 1
        }
    }
}

pub(crate) proof fn lemma_first_byte_at(s: Seq<u8>, b: u8, i: int)
    requires
        0 <= i <= s.len(),
        forall|k: int| 0 <= k < i ==> s[k] != b,
        i == s.len() || s[i] == b,
    ensures
        first_byte(s, b) == (if i == s.len() { -1 } else { i }),
    decreases s.len(),
{
    if s.len() > 0 && i > 0 {
        assert forall|k: int| 0 <= k < i - 1 implies s.drop_first()[k] != b by {
            assert(s.drop_first()[k] == s[k + 1]);
        }
        lemma_first_byte_at(s.drop_first(), b, i - 1);
    }
}

/// Finds the first `b` in `s`.
pub fn find_byte(s: &[u8], b: u8) -> (r: Option<usize>)
    ensures
        match r {
            None => first_byte(s@, b) == -1,
            Some(i) => first_byte(s@, b) == i as int && i < s@.len() && s@[i as int] == b,
        },
{
    let mut i: usize = 0;
    while i < s.len()
        invariant
            i <= s@.len(),
            forall|k: int| 0 <= k < i ==> s@[k] != b,
        decreases s@.len() - i,
    {
        if s[i] == b {
            proof {
                lemma_first_byte_at(s@, b, i as int);
            }
            return Some(i);
        }
        i += 1;
    }
    proof {
        lemma_first_byte_at(s@, b, s@.len() as int);
    }
    None
}

/// The kind and content framed in `store`: the kind is the header up to its
/// first space (the whole header when it has none), the content everything
/// after the first NUL byte. `None` when there is no NUL byte.
pub open spec fn parse_store(store: Seq<u8>) -> Option<(Seq<char>, Seq<u8>)> {
    let z = first_byte(store, 0);
    if z < 0 {
        None
    } else {
        let header = store.subrange(0, z);
        let sp = first_byte(header, 32);
        let kind_bytes = if sp < 0 {
            header
        } else {
            header.subrange(0, sp)
        };
        Some((lossy_decode(kind_bytes), store.skip(z + 1)))
    }
}

/// Why a stored object could not be read.
#[derive(Debug, Clone, Copy, PartialEq, Eq)]
pub enum ObjectError {
    /// The bytes are not a zlib stream.
    BadCompression,
    /// The decompressed bytes have no NUL after the header.
    MissingHeader,
}

/// Decompresses a stored object and splits it into kind and content.
pub fn decode_object(data: &[u8]) -> (r: Result<(String, Vec<u8>), ObjectError>)
    ensures
        match zlib_decompress(data@) {
            None => r == Err::<(String, Vec<u8>), ObjectError>(ObjectError::BadCompression),
            Some(store) => match parse_store(store) {
                None => r == Err::<(String, Vec<u8>), ObjectError>(ObjectError::MissingHeader),
                Some((k, c)) => r matches Ok((kind, content)) && kind@ == k && content@ == c,
            },
        },
{
    let store = match zlib_inflate(data) {
        None => {
            return Err(ObjectError::BadCompression);
        },
        Some(v) => v,
    };
    let z = match find_byte(store.as_slice(), 0u8) {
        None => {
            return Err(ObjectError::MissingHeader);
        },
        Some(z) => z,
    };
    let header = crate::index::copy_range(store.as_slice(), 0, z);
    let kind_bytes = match find_byte(header.as_slice(), 32u8) {
        None => header,
        Some(sp) => crate::index::copy_range(header.as_slice(), 0, sp),
    };
    let kind = from_utf8_lossy(kind_bytes.as_slice());
    let n = store.len();
    let content = crate::index::copy_range(store.as_slice(), z + 1, n);
    assert(content@ =~= store@.skip(z + 1));
    Ok((kind, content))
}

/// A stored object reads back as the kind and content it was made from, for a
/// kind of ASCII characters other than space and NUL.
pub proof fn store_roundtrip(kind: Seq<char>, content: Seq<u8>)
    requires
        is_ascii_chars(kind),
        forall|i: int| 0 <= i < kind.len() ==> #[trigger] kind[i] != ' ' && kind[i] != '\0',
    ensures
        parse_store(store_bytes(kind, content)) == Some((kind, content)),
{
    let kb = encode_utf8(kind);
    let digits = ascii_decimal(content.len());
    let s = store_bytes(kind, content);
    vstd::utf8::is_ascii_chars_encode_utf8(kind);
    lemma_ascii_decimal_digits(content.len());
    let z: int = (kb.len() + 1 + digits.len()) as int;
    assert forall|k: int| 0 <= k < z implies s[k] != 0u8 by {
        if k < kb.len() {
            assert(s[k] == kb[k]);
            assert(kind[k] as u8 == kb[k]);
            assert(kind[k] != '\0');
        } else if k > kb.len() {
            assert(s[k] == digits[k - kb.len() - 1]);
        }
    }
    assert(s[z] == 0u8);
    lemma_first_byte_at(s, 0u8, z as int);
    let header = s.subrange(0, z as int);
    assert forall|k: int| 0 <= k < kb.len() implies header[k] != 32u8 by {
        assert(header[k] == kb[k]);
        assert(kind[k] as u8 == kb[k]);
        assert(kind[k] != ' ');
    }
    lemma_first_byte_at(header, 32u8, kb.len() as int);
    assert(header.subrange(0, kb.len() as int) =~= kb);
    vstd::utf8::encode_utf8_valid_utf8(kind);
    vstd::utf8::encode_utf8_decode_utf8(kind);
    assert(s.skip(z + 1) =~= content);
}

} // verus!
