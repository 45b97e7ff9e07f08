//! Checksums and byte-level encodings shared by the file formats.

use vstd::prelude::*;
use sha2::Digest;

verus! {

/// SHA-256 digest of `data`, as computed by the `sha2` crate.
pub uninterp spec fn sha256_of(data: Seq<u8>) -> Seq<u8>;

/// Computes `sha2::Sha256::digest(data)`.
/// Trusted: the 32 bytes returned are the crate's SHA-256 digest of `data`.
#[verifier::external_body]
pub(crate) fn sha256(data: &[u8]) -> (r: [u8; 32])
    ensures
        r@ == sha256_of(data@),
{
    sha2::Sha256::digest(data).into()
}

/// Lowercase hexadecimal digit for a value below 16.
pub open spec fn hex_digit(v: int) -> char {
    if v < 10 {
        ((v + 48) as u32) as char
    } else {
        ((v + 87) as u32) as char
    }
}

/// Lowercase hexadecimal text of `bytes`, two digits per byte.
pub open spec fn hex_text(bytes: Seq<u8>) -> Seq<char> {
    Seq::new(2 * bytes.len(), |i: int| if i % 2 == 0 {
        hex_digit(bytes[i / 2] as int / 16)
    } else {
        hex_digit(bytes[i / 2] as int % 16)
    })
}

fn hex_char(v: u8) -> (c: char)
    requires
        v < 16,
    ensures
        c == hex_digit(v as int),
{
    let code: u8 = if v < 10 { v + 48 } else { v + 87 };
    code as char
}

/// Convert bytes to a lowercase hex string.
pub fn hex_encode(bytes: &[u8]) -> (s: String)
    ensures
        s@ == hex_text(bytes@),
{
    let mut out: Vec<char> = Vec::new();
    let mut k: usize = 0;
    while k < bytes.len()
        invariant
            k <= bytes@.len(),
            out@ == hex_text(bytes@.take(k as int)),
        decreases bytes@.len() - k,
    {
        let b = bytes[k];
        let hi = hex_char(b / 16);
        let lo = hex_char(b % 16);
        let ghost before = out@;
        out.push(hi);
        out.push(lo);
        k = k + 1;
        proof {
            let t = bytes@.take(k as int);
            assert(bytes@.take(k - 1) =~= t.take(k - 1));
            assert forall|i: int| 0 <= i < 2 * k implies #[trigger] out@[i] == hex_text(t)[i] by {
                if i < 2 * (k - 1) {
                    assert(out@[i] == before[i]);
                    assert(t[i / 2] == bytes@.take(k - 1)[i / 2]);
                }
            }
            assert(out@ =~= hex_text(t));
        }
    }
    proof {
        assert(bytes@.take(bytes@.len() as int) =~= bytes@);
    }
    crate::text::string_of(out.as_slice())
}

/// SHA-256 digest of a dataset's bytes, the checksum that spatial index
/// metadata records.
pub fn dataset_checksum(data: &[u8]) -> (r: [u8; 32])
    ensures
        r@ == sha256_of(data@),
{
    sha256(data)
}

/// Lowercase hexadecimal text of the SHA-256 digest of `data`.
pub fn sha256_hex(data: &[u8]) -> (r: String)
    ensures
        r@ == hex_text(sha256_of(data@)),
{
    let d = sha256(data);
    hex_encode(d.as_slice())
}

} // verus!
