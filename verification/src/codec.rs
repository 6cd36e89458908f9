//! The byte codecs the library relies on: SHA-1, zlib, hexadecimal text and
//! lossy UTF-8 decoding. SHA-1, zlib, hex decoding and lossy decoding are
//! thin trusted wrappers whose contracts say what the called crate (or std)
//! returns; hex encoding is verified here.
use vstd::prelude::*;
use vstd::utf8::{decode_utf8, valid_utf8};
use std::io::Read;
use std::io::Write;
use sha1::Digest;

verus! {

/// The SHA-1 digest that the `sha1` crate computes for `data`.
pub uninterp spec fn sha1_digest(data: Seq<u8>) -> [u8; 20];

/// `sha1::Sha1::new()`, `update(data)`, `finalize()`: the 20 digest bytes,
/// named `sha1_digest(data)`. Nothing else is claimed about the digest.
#[verifier::external_body]
pub(crate) fn sha1_of(data: &[u8]) -> (r: [u8; 20])
    ensures
        r == sha1_digest(data@),
{
    let mut hasher = sha1::Sha1::new();
    hasher.update(data);
    let out = hasher.finalize();
    let mut a = [0u8; 20];
    a.copy_from_slice(&out);
    a
}

/// The lower-case hexadecimal digit of a value below 16.
pub open spec fn hex_digit(v: int) -> char {
    if v == 0 { '0' } else if v == 1 { '1' } else if v == 2 { '2' } else if v == 3 { '3' }
    else if v == 4 { '4' } else if v == 5 { '5' } else if v == 6 { '6' } else if v == 7 { '7' }
    else if v == 8 { '8' } else if v == 9 { '9' } else if v == 10 { 'a' } else if v == 11 { 'b' }
    else if v == 12 { 'c' } else if v == 13 { 'd' } else if v == 14 { 'e' } else { 'f' }
}

/// Two lower-case hexadecimal digits per byte, high nibble first.
pub open spec fn hex_lower(b: Seq<u8>) -> Seq<char>
    decreases b.len(),
{
    if b.len() == 0 {
        seq![]
    } else {
        hex_lower(b.drop_last()) + seq![hex_digit(b.last() as int / 16), hex_digit(b.last() as int % 16)]
    }
}

/// The lower-case hexadecimal digit of a value below 16.
fn hex_char(v: u8) -> (c: char)
    requires
        v < 16,
    ensures
        c == hex_digit(v as int),
{
    if v == 0 { '0' } else if v == 1 { '1' } else if v == 2 { '2' } else if v == 3 { '3' }
    else if v == 4 { '4' } else if v == 5 { '5' } else if v == 6 { '6' } else if v == 7 { '7' }
    else if v == 8 { '8' } else if v == 9 { '9' } else if v == 10 { 'a' } else if v == 11 { 'b' }
    else if v == 12 { 'c' } else if v == 13 { 'd' } else if v == 14 { 'e' } else { 'f' }
}

/// Lower-case hexadecimal text of `data`: two digits per byte, high nibble
/// first (what `hex::encode` gives).
pub(crate) fn hex_encode(data: &[u8]) -> (r: String)
    ensures
        r@ == hex_lower(data@),
{
    let mut out: Vec<char> = Vec::new();
    let mut i: usize = 0;
    assert(data@.take(0) =~= Seq::<u8>::empty());
    while i < data.len()
        invariant
            i <= data@.len(),
            out@ == hex_lower(data@.take(i as int)),
        decreases data@.len() - i,
    {
        let b = data[i];
        out.push(hex_char(b / 16));
        out.push(hex_char(b % 16));
        proof {
            let t = data@.take(i + 1);
            assert(t.drop_last() =~= data@.take(i as int));
            assert(t.last() == b);
        }
        i += 1;
    }
    assert(data@.take(data@.len() as int) =~= data@);
    crate::text::string_of(&out)
}

/// A character that `hex::decode` accepts: `0-9`, `a-f`, `A-F`.
pub open spec fn is_hex_char(c: char) -> bool {
    ('0' <= c <= '9') || ('a' <= c <= 'f') || ('A' <= c <= 'F')
}

pub open spec fn hex_value(c: char) -> int {
    if '0' <= c <= '9' {
        c as int - 48
    } else if 'a' <= c <= 'f' {
        c as int - 97 + 10
    } else {
        c as int - 65 + 10
    }
}

pub open spec fn hex_valid(s: Seq<char>) -> bool {
    s.len() % 2 == 0 && forall|i: int| 0 <= i < s.len() ==> is_hex_char(#[trigger] s[i])
}

/// The bytes spelled by a valid hex string, two digits per byte.
pub open spec fn hex_bytes(s: Seq<char>) -> Seq<u8> {
    Seq::new((s.len() / 2) as nat, |i: int| (hex_value(s[2 * i]) * 16 + hex_value(s[2 * i + 1])) as u8)
}

/// A digit that `hex_digit` writes reads back as its value.
proof fn lemma_hex_digit(v: int)
    requires
        0 <= v < 16,
    ensures
        is_hex_char(hex_digit(v)),
        hex_value(hex_digit(v)) == v,
{
}

/// Decoding what `hex_lower` wrote gives the bytes back.
pub proof fn lemma_hex_roundtrip(b: Seq<u8>)
    ensures
        hex_lower(b).len() == 2 * b.len(),
        hex_valid(hex_lower(b)),
        hex_bytes(hex_lower(b)) == b,
    decreases b.len(),
{
    if b.len() > 0 {
        let x = b.last();
        let s = hex_lower(b.drop_last());
        lemma_hex_roundtrip(b.drop_last());
        lemma_hex_digit(x as int / 16);
        lemma_hex_digit(x as int % 16);
        let t = hex_lower(b);
        assert(t == s + seq![hex_digit(x as int / 16), hex_digit(x as int % 16)]);
        assert forall|i: int| 0 <= i < t.len() implies is_hex_char(#[trigger] t[i]) by {
            if i < s.len() {
                assert(t[i] == s[i]);
            }
        }
        assert(hex_bytes(t) =~= b) by {
            assert forall|i: int| 0 <= i < b.len() implies #[trigger] hex_bytes(t)[i] == b[i] by {
                if i < b.len() - 1 {
                    assert(t[2 * i] == s[2 * i]);
                    assert(t[2 * i + 1] == s[2 * i + 1]);
                    assert(hex_bytes(s)[i] == b.drop_last()[i]);
                } else {
                    assert(t[2 * i] == hex_digit(x as int / 16));
                    assert(t[2 * i + 1] == hex_digit(x as int % 16));
                }
            }
        }
    }
}

#[verifier::external_type_specification]
#[verifier::external_body]
pub struct ExFromHexError(hex::FromHexError);

/// `hex::decode(s)`: succeeds exactly when `s` has an even number of hex digits
/// (either case), and then yields one byte per digit pair.
#[verifier::external_body]
pub(crate) fn hex_decode(s: &str) -> (r: Result<Vec<u8>, hex::FromHexError>)
    ensures
        r is Ok <==> hex_valid(s@),
        r matches Ok(v) ==> v@ == hex_bytes(s@),
{
    hex::decode(s)
}

/// What `flate2`'s zlib encoder (default level) produces for `data`.
pub uninterp spec fn zlib_compress(data: Seq<u8>) -> Seq<u8>;

/// What `flate2`'s zlib decoder yields for `data`, or `None` when it reports an error.
pub uninterp spec fn zlib_decompress(data: Seq<u8>) -> Option<Seq<u8>>;

/// `flate2::write::ZlibEncoder` into a `Vec` with `Compression::default()`:
/// the compressed bytes, named `zlib_compress(data)`; decoding them gives `data` back.
#[verifier::external_body]
pub(crate) fn zlib_deflate(data: &[u8]) -> (r: Vec<u8>)
    ensures
        r@ == zlib_compress(data@),
        zlib_decompress(r@) == Some(data@),
{
    let mut enc = flate2::write::ZlibEncoder::new(Vec::new(), flate2::Compression::default());
    enc.write_all(data).unwrap();
    enc.finish().unwrap()
}

/// `flate2::read::ZlibDecoder::new(data).read_to_end(..)`: the decoded bytes,
/// or `None` when the decoder reports an error; both named by `zlib_decompress`.
#[verifier::external_body]
pub(crate) fn zlib_inflate(data: &[u8]) -> (r: Option<Vec<u8>>)
    ensures
        r is None <==> zlib_decompress(data@) is None,
        r matches Some(v) ==> zlib_decompress(data@) == Some(v@),
{
    let mut dec = flate2::read::ZlibDecoder::new(data);
    let mut out = Vec::new();
    match dec.read_to_end(&mut out) {
        Ok(_) => Some(out),
        Err(_) => None,
    }
}

/// What `String::from_utf8_lossy` yields for `bytes` (invalid sequences become U+FFFD).
pub uninterp spec fn utf8_lossy(bytes: Seq<u8>) -> Seq<char>;

/// Lossy decoding: the plain decoding of valid UTF-8, else what std's lossy
/// conversion gives.
pub open spec fn lossy_decode(bytes: Seq<u8>) -> Seq<char> {
    if valid_utf8(bytes) {
        decode_utf8(bytes)
    } else {
        utf8_lossy(bytes)
    }
}

/// `String::from_utf8_lossy(bytes)`: named `utf8_lossy(bytes)`; on valid UTF-8 it
/// is the plain decoding, as std documents. How invalid input is replaced is not stated.
#[verifier::external_body]
pub(crate) fn from_utf8_lossy(bytes: &[u8]) -> (r: String)
    ensures
        r@ == utf8_lossy(bytes@),
        r@ == lossy_decode(bytes@),
{
    String::from_utf8_lossy(bytes).into_owned()
}

/// `str::as_bytes` followed by `to_vec`: the UTF-8 encoding of `s`.
pub fn utf8_bytes(s: &str) -> (r: Vec<u8>)
    ensures
        r@ == vstd::utf8::encode_utf8(s@),
{
    let b = s.as_bytes();
    let mut out: Vec<u8> = Vec::new();
    crate::bytes::push_all(&mut out, b);
    assert(out@ =~= vstd::utf8::encode_utf8(s@));
    out
}

} // verus!
