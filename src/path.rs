use vstd::prelude::*;
use vstd::string::{StrSliceExecFns, StringExecFns};
use vstd::utf8::{decode_utf8, encode_utf8, encode_utf8_decode_utf8};
use base64::engine::general_purpose;
use base64::Engine as _;
use crate::digest::{md5_of, md5_digest};
use crate::encoding::{base64_nopad, base64_decode, lemma_base64_round_trip, lemma_base64_safe, segment_safe};

verus! {

/// Lower-case hexadecimal digit of a value below sixteen.
pub open spec fn hex_digit(n: u8) -> char {
    if n < 10 {
        ((n + 48) as u32) as char
    } else {
        ((n + 87) as u32) as char
    }
}

/// A byte as two lower-case hexadecimal digits.
pub open spec fn hex_pair(b: u8) -> Seq<char> {
    seq![hex_digit(b / 16), hex_digit(b % 16)]
}

/// The leaf of a key's path: its bytes in unpadded URL-safe base64.
pub open spec fn path_leaf(key: Seq<char>) -> Seq<char> {
    base64_nopad(encode_utf8(key))
}

/// The path of `key` given the digest of its bytes: the first two bytes of
/// the digest as two directories, then the leaf.
pub open spec fn digest_path(d: Seq<u8>, key: Seq<char>) -> Seq<char> {
    hex_pair(d[0]) + seq!['/'] + hex_pair(d[1]) + seq!['/'] + path_leaf(key)
}

/// The relative path of a key's blob on every volume that holds it.
pub open spec fn key_path(key: Seq<char>) -> Seq<char> {
    digest_path(md5_of(encode_utf8(key)), key)
}

/// Relies on base64's `URL_SAFE_NO_PAD` engine: `encode` writes the URL- and
/// filename-safe alphabet and no padding.
#[verifier::external_body]
fn base64_encode(data: &[u8]) -> (r: String)
    ensures
        r@ == base64_nopad(data@),
{
    general_purpose::URL_SAFE_NO_PAD.encode(data)
}

/// Appends a byte as two hexadecimal digits.
fn append_hex_pair(out: &mut String, b: u8)
    ensures
        final(out)@ == old(out)@ + hex_pair(b),
{
    let digits = "0123456789abcdef";
    proof {
        reveal_strlit("0123456789abcdef");
        assert(digits@ =~= seq![
            '0', '1', '2', '3', '4', '5', '6', '7', '8', '9', 'a', 'b', 'c', 'd', 'e', 'f',
        ]);
    }
    let hi: usize = (b / 16) as usize;
    let lo: usize = (b % 16) as usize;
    out.append(digits.substring_char(hi, hi + 1));
    out.append(digits.substring_char(lo, lo + 1));
    proof {
        assert(digits@[hi as int] == hex_digit(b / 16));
        assert(digits@[lo as int] == hex_digit(b % 16));
        assert(final(out)@ =~= old(out)@ + hex_pair(b));
    }
}

/// The relative path under which `key` is stored on its volumes.
pub fn key2path(key: &str) -> (r: String)
    ensures
        r@ == key_path(key@),
{
    let bytes = key.as_bytes_vec();
    let d = md5_digest(bytes.as_slice());
    path_from_digest(d.as_slice(), key)
}

/// The path of `key`, given the digest of its bytes.
pub fn path_from_digest(d: &[u8], key: &str) -> (r: String)
    requires
        d@.len() >= 2,
    ensures
        r@ == digest_path(d@, key@),
{
    let bytes = key.as_bytes_vec();
    let sep = "/";
    proof {
        reveal_strlit("/");
    }
    let mut out = String::new();
    append_hex_pair(&mut out, d[0]);
    out.append(sep);
    append_hex_pair(&mut out, d[1]);
    out.append(sep);
    let leaf = base64_encode(bytes.as_slice());
    out.append(leaf.as_str());
    proof {
        assert(out@ =~= digest_path(d@, key@));
    }
    out
}

/// The path is a function of the key, and the key can be read back from it:
/// the leaf, what follows the second `/`, decodes to the key.
pub proof fn lemma_path_leaf_decodes(key: Seq<char>)
    ensures
        key_path(key).skip(6) == path_leaf(key),
        decode_utf8(base64_decode(key_path(key).skip(6))) == key,
{
    assert(key_path(key).skip(6) =~= path_leaf(key));
    lemma_base64_round_trip(encode_utf8(key));
    encode_utf8_decode_utf8(key);
}

/// Distinct keys have distinct paths.
pub proof fn lemma_path_injective(k1: Seq<char>, k2: Seq<char>)
    requires
        key_path(k1) == key_path(k2),
    ensures
        k1 == k2,
{
    lemma_path_leaf_decodes(k1);
    lemma_path_leaf_decodes(k2);
}

/// A path is three segments: two directories of two hexadecimal digits, and a
/// leaf of letters, digits, `-` and `_`, so that no `/` stands in the leaf.
pub proof fn lemma_path_segments(key: Seq<char>)
    ensures
        key_path(key)[2] == '/',
        key_path(key)[5] == '/',
        forall|i: int| 0 <= i < path_leaf(key).len() ==> segment_safe(#[trigger] path_leaf(key)[i]),
        forall|i: int| 6 <= i < key_path(key).len() ==> #[trigger] key_path(key)[i] != '/',
{
    lemma_base64_safe(encode_utf8(key));
    let p = key_path(key);
    assert(p.skip(6) =~= path_leaf(key));
    assert forall|i: int| 6 <= i < p.len() implies #[trigger] p[i] != '/' by {
        assert(p[i] == path_leaf(key)[i - 6]);
        assert(segment_safe(path_leaf(key)[i - 6]));
    }
}

} // verus!
