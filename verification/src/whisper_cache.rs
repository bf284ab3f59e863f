//! Keys of the cache of speech-recognition results: the SHA-256 of the
//! audio file, written in lower-case hex, names the cache entry.

use vstd::prelude::*;
use vstd::string::StringExecFns;
use crate::text::string_from_chars;

verus! {

/// The lower-case hex digits.
pub open spec fn hex_digits() -> Seq<char> {
    seq!['0', '1', '2', '3', '4', '5', '6', '7', '8', '9', 'a', 'b', 'c', 'd', 'e', 'f']
}

/// Two lower-case hex digits per byte, high nibble first.
pub open spec fn hex_lower(bytes: Seq<u8>) -> Seq<char>
    decreases bytes.len(),
{
    if bytes.len() == 0 {
        seq![]
    } else {
        hex_lower(bytes.drop_last()) + seq![
            hex_digits()[(bytes.last() / 16) as int],
            hex_digits()[(bytes.last() % 16) as int],
        ]
    }
}

/// Lower-case hex encoding of `bytes`.
pub fn encode_short(bytes: &[u8]) -> (s: String)
    ensures
        s@ == hex_lower(bytes@),
        s@.len() == 2 * bytes@.len(),
{
    let hex: [char; 16] = ['0', '1', '2', '3', '4', '5', '6', '7', '8', '9', 'a', 'b', 'c', 'd', 'e', 'f'];
    assert(hex@ =~= hex_digits());
    let mut out: Vec<char> = Vec::new();
    let mut i: usize = 0;
    while i < bytes.len()
        invariant
            hex@ == hex_digits(),
            i <= bytes@.len(),
            out@ == hex_lower(bytes@.take(i as int)),
            out@.len() == 2 * i,
        decreases bytes@.len() - i,
    {
        assert(bytes@.take(i + 1).drop_last() =~= bytes@.take(i as int));
        let b = bytes[i];
        assert(b >> 4 == b / 16 && b & 0xF == b % 16) by (bit_vector);
        out.push(hex[(b >> 4) as usize]);
        out.push(hex[(b & 0xF) as usize]);
        assert(out@ =~= hex_lower(bytes@.take(i + 1)));
        i = i + 1;
    }
    assert(bytes@.take(bytes@.len() as int) =~= bytes@);
    string_from_chars(out.as_slice())
}

/// The SHA-256 digest of `data`, as `sha2::Sha256::digest` computes it.
pub uninterp spec fn sha256(data: Seq<u8>) -> Seq<u8>;

/// Calls `sha2::Sha256::digest`: the 32-byte SHA-256 digest of `data`.
#[verifier::external_body]
fn sha256_digest(data: &[u8]) -> (d: Vec<u8>)
    ensures
        d@ == sha256(data@),
        d@.len() == 32,
{
    <sha2::Sha256 as sha2::Digest>::digest(data).to_vec()
}

/// The cache key of an audio file with contents `bytes`: its SHA-256 in
/// lower-case hex (64 characters).
pub fn hash_bytes(bytes: &[u8]) -> (key: String)
    ensures
        key@ == hex_lower(sha256(bytes@)),
        key@.len() == 64,
{
    let digest = sha256_digest(bytes);
    encode_short(digest.as_slice())
}

/// The file name of the cache entry for `hash`.
pub fn cache_file_name(hash: &str) -> (name: String)
    ensures
        name@ == hash@ + ".json"@,
{
    let mut name = hash.to_owned();
    name.append(".json");
    name
}

} // verus!
